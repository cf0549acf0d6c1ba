//! Reading log files.
//!
//! A log file is a header and entries packed back to back. What can be read of
//! it is the run of whole, uncorrupted entries at its front: the first entry
//! that is cut short or damaged ends it. The header's version word says which
//! format the entries have. An entry of the first format carries its id; an
//! entry of the current one has the file's first id plus its position.

use bytes::Bytes;
use vstd::prelude::*;
use vstd::slice::slice_subrange;
use crate::buf;
use crate::errors::WalError;
use crate::hash;
use crate::types::{DataSource, ReadEntry, ReadEntryView};
use crate::uintn;
use crate::uintn::UintN;
use crate::wal_entry;
use crate::wal_entry::{WalEntryError, WalEntryHeader};
use crate::wal_entry_v1;
use crate::wal_entry_v1::WalEntryV1;
use crate::wal_header;
use crate::wal_header::{HeaderView, WalHeader, WalHeaderError};
use crate::wal_header_v1;
use crate::wal_header_v1::{
    AnyHeaderView,
    AnyWalHeader,
    AnyWalHeaderError,
    WalHeaderV1Error,
};

verus! {

/// How much of a file is looked at for its header.
pub const HEADER_READ_SIZE: usize = 128;

// ---------------------------------------------------------------------------
// What a log file holds.

/// An entry whose header could be read: its id, its record unless that is cut
/// short or damaged, and where what was read of it ends.
pub struct Found {
    pub id: nat,
    pub record: Option<Seq<u8>>,
    pub next: nat,
}

/// The entry at `at`, the `index`th of its file, if its header can be read.
pub open spec fn entry_at(content: Seq<u8>, h: AnyHeaderView, at: nat, index: nat) -> Option<
    Found,
> {
    let rest = content.skip(at as int);
    if h.version == 0 {
        match wal_entry::parse(rest, h.header) {
            Err(_) => None,
            Ok(e) => {
                let start = at + wal_entry::header_len(h.header);
                let end = start + e.record_size;
                let record = content.subrange(start as int, end as int);
                if end > content.len() || hash::xxh64_of(record, 0) != e.xxhash {
                    Some(Found { id: e.entry_id, record: None, next: start })
                } else {
                    Some(Found { id: e.entry_id, record: Some(record), next: end })
                }
            },
        }
    } else {
        match wal_entry_v1::parse(rest) {
            Err(_) => None,
            Ok((record, n)) => if h.header.num_entries_before + index > u64::MAX {
                None
            } else {
                Some(
                    Found {
                        id: h.header.num_entries_before + index,
                        record: Some(record),
                        next: at + n,
                    },
                )
            },
        }
    }
}

/// An entry that was found ends behind where it starts, within the file.
pub proof fn lemma_entry_at_bounds(content: Seq<u8>, h: AnyHeaderView, at: nat, index: nat)
    requires
        at <= content.len(),
    ensures
        entry_at(content, h, at, index) matches Some(f) ==> at < f.next <= content.len(),
{
    if h.version != 0 {
        let rest = content.skip(at as int);
        if wal_entry_v1::parse(rest) is Ok {
            wal_entry_v1::entry_is_canonical(rest);
            let (record, n) = wal_entry_v1::parse(rest)->Ok_0;
            wal_entry_v1::lemma_entry_len(record);
        }
    }
}

/// The whole, uncorrupted entries from `at` on, with their ids, up to the
/// first that is not.
pub open spec fn entries(content: Seq<u8>, h: AnyHeaderView, at: nat, index: nat) -> Seq<
    (nat, Seq<u8>),
>
    decreases content.len() - at,
{
    if at > content.len() {
        Seq::empty()
    } else {
        match entry_at(content, h, at, index) {
            Some(Found { id, record: Some(record), next }) => {
                proof {
                    lemma_entry_at_bounds(content, h, at, index);
                }
                seq![(id, record)] + entries(content, h, next, index + 1)
            },
            _ => Seq::empty(),
        }
    }
}

/// The id of the entry at which the readable entries from `at` on end, if its
/// header can be read: its record is cut short or damaged.
pub open spec fn unread(content: Seq<u8>, h: AnyHeaderView, at: nat, index: nat) -> Option<nat>
    decreases content.len() - at,
{
    if at > content.len() {
        None
    } else {
        match entry_at(content, h, at, index) {
            None => None,
            Some(f) => match f.record {
                None => Some(f.id),
                Some(_) => {
                    proof {
                        lemma_entry_at_bounds(content, h, at, index);
                    }
                    unread(content, h, f.next, index + 1)
                },
            },
        }
    }
}

/// Whether an id is one of those asked for: at least `from`, and a whole
/// number of steps past it.
pub open spec fn wanted(id: nat, from: nat, step: nat) -> bool {
    from <= id && ((id - from) as nat) % step == 0
}

/// What is being asked of a file.
pub struct Query {
    pub from: nat,
    pub until: Option<nat>,
    pub step: nat,
}

impl Query {
    pub open spec fn past_end(self, id: nat) -> bool {
        self.until matches Some(u) && id > u
    }

    pub open spec fn at_end(self, id: nat) -> bool {
        self.until matches Some(u) && id >= u
    }
}

/// How a walk over a file's entries went: what it delivered, the last id that
/// it delivered, the last id that it came upon, whether it came upon the end of
/// what was asked for, and whether it stopped at an entry that was asked for
/// and could not be read.
pub struct Walk {
    pub delivered: Seq<(nat, Seq<u8>)>,
    pub last_read: Option<nat>,
    pub last_seen: Option<nat>,
    pub complete: bool,
    pub missed: bool,
}

pub open spec fn stopped(
    last_read: Option<nat>,
    last_seen: Option<nat>,
    complete: bool,
    missed: bool,
) -> Walk {
    Walk { delivered: Seq::empty(), last_read, last_seen, complete, missed }
}

pub open spec fn preceded(e: (nat, Seq<u8>), w: Walk) -> Walk {
    Walk { delivered: seq![e] + w.delivered, ..w }
}

/// The walk from `at` on. It ends at the first entry past the end of what was
/// asked for, at the entry that is that end, and at the first entry that is
/// cut short or damaged.
pub open spec fn walk(
    content: Seq<u8>,
    h: AnyHeaderView,
    at: nat,
    index: nat,
    q: Query,
    last_read: Option<nat>,
    last_seen: Option<nat>,
) -> Walk
    decreases content.len() - at,
{
    if at > content.len() {
        stopped(last_read, last_seen, false, false)
    } else {
        match entry_at(content, h, at, index) {
            None => stopped(last_read, last_seen, false, false),
            Some(f) => {
                proof {
                    lemma_entry_at_bounds(content, h, at, index);
                }
                if q.past_end(f.id) {
                    stopped(last_read, Some(f.id), true, false)
                } else {
                    match f.record {
                        None => stopped(
                            last_read,
                            Some(f.id),
                            false,
                            wanted(f.id, q.from, q.step),
                        ),
                        Some(record) => if !wanted(f.id, q.from, q.step) {
                            walk(content, h, f.next, index + 1, q, last_read, Some(f.id))
                        } else if q.at_end(f.id) {
                            preceded((f.id, record), stopped(Some(f.id), Some(f.id), true, false))
                        } else {
                            preceded(
                                (f.id, record),
                                walk(
                                    content,
                                    h,
                                    f.next,
                                    index + 1,
                                    q,
                                    Some(f.id),
                                    Some(f.id),
                                ),
                            )
                        },
                    }
                }
            },
        }
    }
}

/// How a range read ended.
pub enum RangeOutcome {
    /// Everything asked for was read.
    Complete,
    /// The file ended first, or an entry that was asked for could not be read.
    Partial { last_read: Option<nat>, last_in_file: nat },
}

pub open spec fn outcome_of(w: Walk, q: Query) -> RangeOutcome {
    if !w.missed && (w.complete || (w.last_seen matches Some(id) && q.at_end(id))) {
        RangeOutcome::Complete
    } else {
        RangeOutcome::Partial {
            last_read: w.last_read,
            last_in_file: match w.last_seen {
                Some(id) => id,
                None => q.from,
            },
        }
    }
}

/// What reading a range of a file yields: the entries and how it ended. In a
/// file that ends within its header there is nothing to read; whether that is
/// an error is up to the caller.
pub open spec fn range_of(content: Seq<u8>, q: Query, header_required: bool) -> Result<
    (Seq<(nat, Seq<u8>)>, RangeOutcome),
    AnyWalHeaderError,
> {
    let nothing = (
        Seq::<(nat, Seq<u8>)>::empty(),
        RangeOutcome::Partial { last_read: None, last_in_file: q.from },
    );
    if content.len() == 0 {
        Ok(nothing)
    } else {
        match wal_header_v1::parse_any(content) {
            Err(e) => if !header_required && wal_header_v1::is_incomplete(e) {
                Ok(nothing)
            } else {
                Err(e)
            },
            Ok((h, n)) => {
                let w = walk(content, h, n, 0, q, None, None);
                Ok((w.delivered, outcome_of(w, q)))
            },
        }
    }
}

// ---------------------------------------------------------------------------
// Finding entries.

/// An entry of a file, by where its record stands.
struct Located {
    id: UintN,
    record: Option<(usize, usize)>,
    next: usize,
}

spec fn located(content: Seq<u8>, l: Located) -> Found {
    Found {
        id: l.id@,
        record: match l.record {
            Some((a, b)) => Some(content.subrange(a as int, b as int)),
            None => None,
        },
        next: l.next as nat,
    }
}

spec fn within(content: Seq<u8>, l: Located) -> bool {
    &&& l.next <= content.len()
    &&& l.record matches Some((a, b)) ==> a <= b <= content.len()
}

/// A header read from a file: its widths are valid, and if it is of the
/// current format its counter fits in a `u64`.
pub open spec fn header_read(h: AnyWalHeader) -> bool {
    h matches AnyWalHeader::V0(v) ==> v@.valid()
}

fn locate_v0(content: &[u8], header: &WalHeader, at: usize, Ghost(index): Ghost<nat>) -> (res:
    Option<Located>)
    requires
        at <= content@.len(),
        header@.valid(),
    ensures
        ({
            let h = AnyHeaderView { version: 0, header: header@ };
            match (res, entry_at(content@, h, at as nat, index)) {
                (Some(l), Some(f)) => within(content@, l) && located(content@, l) == f && l.next
                    > at,
                (None, None) => true,
                _ => false,
            }
        }),
{
    let len: usize = content.len();
    let rest = slice_subrange(content, at, len);
    assert(rest@ =~= content@.skip(at as int));
    let entry = match WalEntryHeader::from_bytes(rest, header) {
        Ok(e) => e,
        Err(_) => {
            return None;
        },
    };
    let start: usize = at + entry.size(header);
    let size: usize = match entry.record_size.to_u64() {
        Ok(s) => {
            if s > (len - start) as u64 {
                return Some(Located { id: entry.entry_id, record: None, next: start });
            }
            s as usize
        },
        Err(_) => {
            return Some(Located { id: entry.entry_id, record: None, next: start });
        },
    };
    let end: usize = start + size;
    let record = slice_subrange(content, start, end);
    if hash::xxh64(record, 0) != entry.xxhash {
        return Some(Located { id: entry.entry_id, record: None, next: start });
    }
    Some(Located { id: entry.entry_id, record: Some((start, end)), next: end })
}

fn locate(content: &[u8], header: &AnyWalHeader, at: usize, index: u64) -> (res: Option<Located>)
    requires
        at <= content@.len(),
        header_read(*header),
    ensures
        match (res, entry_at(content@, header@, at as nat, index as nat)) {
            (Some(l), Some(f)) => within(content@, l) && located(content@, l) == f && l.next > at,
            (None, None) => true,
            _ => false,
        },
{
    match header {
        AnyWalHeader::V0(h) => locate_v0(content, h, at, Ghost(index as nat)),
        AnyWalHeader::V1(h) => {
            let len: usize = content.len();
            let rest = slice_subrange(content, at, len);
            assert(rest@ =~= content@.skip(at as int));
            proof {
                lemma_entry_at_bounds(content@, header@, at as nat, index as nat);
            }
            match WalEntryV1::iter_next(rest, h.num_entries_before, index) {
                Ok((e, id, n)) => {
                    proof {
                        wal_entry_v1::entry_is_canonical(rest@);
                        wal_entry_v1::lemma_entry_len(e.record@);
                        assert(rest@.take(n as int).subrange(n - 4 - e.record@.len(), n - 4)
                            =~= e.record@);
                    }
                    let end: usize = at + n - wal_entry_v1::WAL_ENTRY_V1_CRC_SIZE;
                    let start: usize = end - e.record.len();
                    proof {
                        assert(content@.subrange(start as int, end as int) =~= e.record@);
                    }
                    Some(
                        Located {
                            id: UintN::from_u64(id),
                            record: Some((start, end)),
                            next: at + n,
                        },
                    )
                },
                Err(_) => None,
            }
        },
    }
}

// ---------------------------------------------------------------------------
// Whole-file reads.

/// The contents of a log file and how many entries can be read of it.
pub struct WalContent {
    pub entries_before: UintN,
    pub num_entries: UintN,
    pub content: Bytes,
}

/// Whether a failed read only lacked bytes.
fn lacks_bytes(e: &AnyWalHeaderError) -> (res: bool)
    ensures
        res == wal_header_v1::is_incomplete(*e),
{
    match e {
        AnyWalHeaderError::V0(WalHeaderError::SliceTooShort) => true,
        AnyWalHeaderError::V1(WalHeaderV1Error::Truncated) => true,
        _ => false,
    }
}

/// What the first bytes of a file say its header is: an empty file, or one
/// that ends within its header, is reported as empty.
pub open spec fn header_outcome(head: Seq<u8>, file_id: nat) -> Result<HeaderView, WalErrorView> {
    if head.len() == 0 {
        Err(WalErrorView::Empty(file_id))
    } else {
        match wal_header_v1::parse_any(head) {
            Ok((h, _)) => Ok(h.header),
            Err(e) => if wal_header_v1::is_incomplete(e) {
                Err(WalErrorView::Empty(file_id))
            } else {
                Err(WalErrorView::Header(e))
            },
        }
    }
}

/// The ways in which reading a file's bytes fails.
pub enum WalErrorView {
    Empty(nat),
    Header(AnyWalHeaderError),
    Entry(WalEntryError),
}

/// Whether an error is this one.
pub open spec fn is_error(e: WalError, v: WalErrorView) -> bool {
    match v {
        WalErrorView::Empty(id) => e matches WalError::WalEmpty(f) && f@ == id,
        WalErrorView::Header(h) => e == WalError::AnyWalHeaderError(h),
        WalErrorView::Entry(h) => e == WalError::WalEntryError(h),
    }
}

/// The header that a file's first bytes hold. Only the first 128 are looked
/// at.
pub fn read_wal_header(content: &[u8], file_id: &UintN) -> (res: Result<WalHeader, WalError>)
    ensures
        ({
            let n = if content@.len() < 128 {
                content@.len() as int
            } else {
                128
            };
            match (res, header_outcome(content@.take(n), file_id@)) {
                (Ok(h), Ok(v)) => h@ == v,
                (Err(e), Err(v)) => is_error(e, v),
                _ => false,
            }
        }),
{
    let n: usize = if content.len() < HEADER_READ_SIZE {
        content.len()
    } else {
        HEADER_READ_SIZE
    };
    let head = slice_subrange(content, 0, n);
    assert(head@ =~= content@.take(n as int));
    if n == 0 {
        return Err(WalError::WalEmpty(file_id.clone()));
    }
    match AnyWalHeader::from_bytes(head) {
        Ok((h, _)) => Ok(h.to_header()),
        Err(e) => if lacks_bytes(&e) {
            Err(WalError::WalEmpty(file_id.clone()))
        } else {
            Err(WalError::AnyWalHeaderError(e))
        },
    }
}

/// The header at the front of a file's contents.
pub fn get_wal_header(content: &Bytes) -> (res: Result<WalHeader, AnyWalHeaderError>)
    ensures
        match (res, wal_header_v1::parse_any(buf::bytes_of(*content))) {
            (Ok(h), Ok((v, _))) => h@ == v.header,
            (Err(e), Err(f)) => e == f,
            _ => false,
        },
{
    match AnyWalHeader::from_bytes(buf::bytes_slice(content)) {
        Ok((h, _)) => Ok(h.to_header()),
        Err(e) => Err(e),
    }
}

/// The first and last of a run of entries.
pub open spec fn ends(s: Seq<(nat, Seq<u8>)>) -> Option<(nat, nat)> {
    if s.len() == 0 {
        None
    } else {
        Some((s.first().0, s.last().0))
    }
}

/// The header of a file and the ids of the first and last entry that can be
/// read of it.
pub fn get_wal_range(content: &[u8], file_id: &UintN) -> (res: Result<
    (WalHeader, Option<(UintN, UintN)>),
    WalError,
>)
    ensures
        match (res, header_outcome(content@, file_id@)) {
            (Ok((h, range)), Ok(v)) => {
                let (any, n) = wal_header_v1::parse_any(content@)->Ok_0;
                let found = ends(entries(content@, any, n, 0));
                &&& h@ == v
                &&& match (range, found) {
                    (Some((a, b)), Some((x, y))) => a@ == x && b@ == y,
                    (None, None) => true,
                    _ => false,
                }
            },
            (Err(e), Err(v)) => is_error(e, v),
            _ => false,
        },
{
    if content.len() == 0 {
        return Err(WalError::WalEmpty(file_id.clone()));
    }
    let (header, size) = match AnyWalHeader::from_bytes(content) {
        Ok(v) => v,
        Err(e) => {
            return if lacks_bytes(&e) {
                Err(WalError::WalEmpty(file_id.clone()))
            } else {
                Err(WalError::AnyWalHeaderError(e))
            };
        },
    };
    proof {
        wal_header_v1::lemma_parse_any_bounds(content@);
    }
    let ghost all = entries(content@, header@, size as nat, 0);
    let ghost mut seen: Seq<(nat, Seq<u8>)> = Seq::empty();
    let mut range: Option<(UintN, UintN)> = None;
    let mut at: usize = size;
    let mut index: u64 = 0;
    let mut going: bool = true;
    let len: usize = content.len();
    assert(seen + all =~= all);
    while going
        invariant
            header_read(header),
            at <= len,
            len == content@.len(),
            index <= at,
            all == seen + (if going {
                entries(content@, header@, at as nat, index as nat)
            } else {
                Seq::<(nat, Seq<u8>)>::empty()
            }),
            match (range, ends(seen)) {
                (Some((a, b)), Some((x, y))) => a@ == x && b@ == y,
                (None, None) => true,
                _ => false,
            },
        decreases len - at + (if going {
                1int
            } else {
                0int
            }),
    {
        match locate(content, &header, at, index) {
            Some(Located { id, record: Some((start, end)), next }) => {
                let ghost e = (id@, content@.subrange(start as int, end as int));
                let ghost before = seen;
                proof {
                    seen = seen.push(e);
                    let more = entries(content@, header@, next as nat, (index + 1) as nat);
                    assert(before + (seq![e] + more) =~= seen + more);
                    assert(seen.first() == (if before.len() == 0 {
                        e
                    } else {
                        before.first()
                    }));
                }
                range =
                match range {
                    Some((first, _)) => Some((first, id)),
                    None => Some((id.clone(), id)),
                };
                at = next;
                index = index + 1;
            },
            _ => {
                going = false;
            },
        }
    }
    assert(all =~= seen);
    Ok((header.to_header(), range))
}

/// The contents of a file and how many entries can be read of it.
pub fn get_wal_content(content: Bytes) -> (res: Result<WalContent, WalError>)
    ensures
        ({
            let s = buf::bytes_of(content);
            match res {
                Ok(c) => {
                    &&& s.len() > 0
                    &&& wal_header_v1::parse_any(s) is Ok
                    &&& {
                        let (h, n) = wal_header_v1::parse_any(s)->Ok_0;
                        &&& c.entries_before@ == h.header.num_entries_before
                        &&& c.num_entries@ == entries(s, h, n, 0).len()
                        &&& buf::bytes_of(c.content) == s
                    }
                },
                Err(e) => if s.len() == 0 {
                    e == WalError::WalEntryError(WalEntryError::SliceTooShort)
                } else {
                    &&& wal_header_v1::parse_any(s) is Err
                    &&& e == WalError::AnyWalHeaderError(wal_header_v1::parse_any(s)->Err_0)
                },
            }
        }),
{
    let s = buf::bytes_slice(&content);
    if s.len() == 0 {
        return Err(WalError::WalEntryError(WalEntryError::SliceTooShort));
    }
    let (header, size) = match AnyWalHeader::from_bytes(s) {
        Ok(v) => v,
        Err(e) => {
            return Err(WalError::AnyWalHeaderError(e));
        },
    };
    proof {
        wal_header_v1::lemma_parse_any_bounds(s@);
    }
    let ghost all = entries(s@, header@, size as nat, 0);
    let mut at: usize = size;
    let mut count: u64 = 0;
    let mut going: bool = true;
    let len: usize = s.len();
    while going
        invariant
            header_read(header),
            at <= len,
            len == s@.len(),
            count <= at,
            all.len() == count + (if going {
                entries(s@, header@, at as nat, count as nat).len()
            } else {
                0
            }),
        decreases len - at + (if going {
                1int
            } else {
                0int
            }),
    {
        match locate(s, &header, at, count) {
            Some(Located { id: _, record: Some(_), next }) => {
                at = next;
                count = count + 1;
            },
            _ => {
                going = false;
            },
        }
    }
    Ok(
        WalContent {
            entries_before: header.num_entries_before(),
            num_entries: UintN::from_u64(count),
            content,
        },
    )
}

// ---------------------------------------------------------------------------
// Range reads.

/// How a range read ended.
#[derive(Debug, PartialEq, Eq)]
pub enum ReadRangeResult {
    /// All requested entries were read.
    Complete,
    /// The file ended before the range did, or an entry of the range could not
    /// be read.
    PartialRead { last_read_id: Option<UintN>, last_id_in_file: UintN },
    /// Nobody takes the entries any more.
    ChannelClosed,
}

/// Whether a result says that a read ended like this.
pub open spec fn result_is(r: ReadRangeResult, o: RangeOutcome) -> bool {
    match (r, o) {
        (ReadRangeResult::Complete, RangeOutcome::Complete) => true,
        (
            ReadRangeResult::PartialRead { last_read_id, last_id_in_file },
            RangeOutcome::Partial { last_read, last_in_file },
        ) => uintn::opt_value(last_read_id) == last_read && last_id_in_file@ == last_in_file,
        _ => false,
    }
}

/// Whether entries are these, read from `source`.
pub open spec fn delivers(
    es: Seq<ReadEntry>,
    d: Seq<(nat, Seq<u8>)>,
    source: DataSource,
) -> bool {
    &&& es.len() == d.len()
    &&& forall|i: int|
        0 <= i < es.len() ==> #[trigger] es[i]@ == (ReadEntryView {
            id: d[i].0,
            data: d[i].1,
            source,
        })
}

/// What is asked for: a step of zero counts as one.
pub open spec fn query(from: nat, until: Option<nat>, step: usize) -> Query {
    Query {
        from,
        until,
        step: if step == 0 {
            1
        } else {
            step as nat
        },
    }
}

/// A range read in progress. It takes one entry at a time, so that whoever
/// receives the entries can stop it between two of them.
pub struct RangeScan {
    content: Bytes,
    header: AnyWalHeader,
    from_id: UintN,
    until_id: Option<UintN>,
    step: u64,
    data_source: DataSource,
    cursor: usize,
    index: u64,
    last_read_id: Option<UintN>,
    last_processed_id: Option<UintN>,
    found_complete: bool,
    missed: bool,
    finished: bool,
}

/// What one step of a range read came to.
pub enum ScanStep {
    /// This entry is to be delivered.
    Deliver(ReadEntry),
    /// An entry was passed over.
    Passed,
    /// There is nothing more to read.
    End,
}

/// A range read that has begun, or that found nothing to read.
pub enum RangeStart {
    Nothing(ReadRangeResult),
    Scanning(RangeScan),
}

impl RangeScan {
    pub closed spec fn wf(&self) -> bool {
        &&& self.cursor <= buf::bytes_of(self.content).len()
        &&& self.index <= self.cursor
        &&& self.step > 0
        &&& header_read(self.header)
        &&& self.found_complete ==> self.finished
        &&& self.missed ==> self.finished
    }

    /// What is asked for.
    pub closed spec fn query(&self) -> Query {
        Query {
            from: self.from_id@,
            until: uintn::opt_value(self.until_id),
            step: self.step as nat,
        }
    }

    /// The walk from here on.
    pub closed spec fn rest(&self) -> Walk {
        if self.finished {
            stopped(
                uintn::opt_value(self.last_read_id),
                uintn::opt_value(self.last_processed_id),
                self.found_complete,
                self.missed,
            )
        } else {
            walk(
                buf::bytes_of(self.content),
                self.header@,
                self.cursor as nat,
                self.index as nat,
                self.query(),
                uintn::opt_value(self.last_read_id),
                uintn::opt_value(self.last_processed_id),
            )
        }
    }

    /// Where the entries are said to come from.
    pub closed spec fn source(&self) -> DataSource {
        self.data_source
    }

    pub closed spec fn is_finished(&self) -> bool {
        self.finished
    }

    /// A bound on the steps that are left.
    pub closed spec fn fuel(&self) -> nat {
        if self.finished {
            0
        } else {
            (buf::bytes_of(self.content).len() - self.cursor + 1) as nat
        }
    }

    /// Begins to read a range of a file's contents. A file that ends within
    /// its header is an error if `header_required`, and otherwise one with
    /// nothing to read.
    pub fn start(
        content: Bytes,
        from_id: &UintN,
        until_id: &Option<UintN>,
        step: usize,
        data_source: DataSource,
        header_required: bool,
    ) -> (res: Result<RangeStart, WalError>)
        ensures
            ({
                let s = buf::bytes_of(content);
                let q = query(from_id@, uintn::opt_value(*until_id), step);
                match (res, range_of(s, q, header_required)) {
                    (Ok(RangeStart::Nothing(r)), Ok((d, o))) => d.len() == 0 && result_is(r, o),
                    (Ok(RangeStart::Scanning(scan)), Ok((d, o))) => {
                        &&& scan.wf()
                        &&& scan.query() == q
                        &&& scan.source() == data_source
                        &&& scan.rest().delivered == d
                        &&& outcome_of(scan.rest(), q) == o
                    },
                    (Err(e), Err(f)) => e == WalError::AnyWalHeaderError(f),
                    _ => false,
                }
            }),
    {
        let s = buf::bytes_slice(&content);
        if s.len() == 0 {
            return Ok(
                RangeStart::Nothing(
                    ReadRangeResult::PartialRead {
                        last_read_id: None,
                        last_id_in_file: from_id.clone(),
                    },
                ),
            );
        }
        let (header, size) = match AnyWalHeader::from_bytes(s) {
            Ok(v) => v,
            Err(e) => {
                if !header_required && lacks_bytes(&e) {
                    return Ok(
                        RangeStart::Nothing(
                            ReadRangeResult::PartialRead {
                                last_read_id: None,
                                last_id_in_file: from_id.clone(),
                            },
                        ),
                    );
                }
                return Err(WalError::AnyWalHeaderError(e));
            },
        };
        proof {
            wal_header_v1::lemma_parse_any_bounds(s@);
        }
        Ok(
            RangeStart::Scanning(
                RangeScan {
                    content,
                    header,
                    from_id: from_id.clone(),
                    until_id: uintn::clone_opt(until_id),
                    step: if step == 0 {
                        1
                    } else {
                        step as u64
                    },
                    data_source,
                    cursor: size,
                    index: 0,
                    last_read_id: None,
                    last_processed_id: None,
                    found_complete: false,
                    missed: false,
                    finished: false,
                },
            ),
        )
    }

    /// Takes the next entry.
    pub fn step(&mut self) -> (res: ScanStep)
        requires
            old(self).wf(),
        ensures
            final(self).wf(),
            final(self).query() == old(self).query(),
            final(self).source() == old(self).source(),
            match res {
                ScanStep::Deliver(e) => {
                    &&& old(self).rest() == preceded((e@.id, e@.data), final(self).rest())
                    &&& e@.source == old(self).source()
                    &&& final(self).fuel() < old(self).fuel()
                },
                ScanStep::Passed => {
                    &&& final(self).rest() == old(self).rest()
                    &&& final(self).fuel() < old(self).fuel()
                },
                ScanStep::End => {
                    &&& final(self).rest() == old(self).rest()
                    &&& final(self).rest().delivered.len() == 0
                    &&& final(self).is_finished()
                },
            },
    {
        if self.finished {
            return ScanStep::End;
        }
        let s = buf::bytes_slice(&self.content);
        let found = match locate(s, &self.header, self.cursor, self.index) {
            Some(f) => f,
            None => {
                self.finished = true;
                return ScanStep::End;
            },
        };
        let past_end = match &self.until_id {
            Some(until) => until.is_less(&found.id),
            None => false,
        };
        if past_end {
            self.last_processed_id = Some(found.id);
            self.found_complete = true;
            self.finished = true;
            return ScanStep::End;
        }
        let chosen = self.from_id.is_at_most(&found.id) && found.id.in_step(
            &self.from_id,
            self.step,
        );
        let (start, end): (usize, usize) = match found.record {
            Some(r) => r,
            None => {
                self.last_processed_id = Some(found.id);
                self.missed = chosen;
                self.finished = true;
                return ScanStep::End;
            },
        };
        if !chosen {
            self.last_processed_id = Some(found.id);
            self.cursor = found.next;
            self.index = self.index + 1;
            return ScanStep::Passed;
        }
        let at_end = match &self.until_id {
            Some(until) => until.is_at_most(&found.id),
            None => false,
        };
        let data = buf::bytes_part(&self.content, start, end);
        self.last_read_id = Some(found.id.clone());
        self.last_processed_id = Some(found.id.clone());
        self.cursor = found.next;
        self.index = self.index + 1;
        if at_end {
            self.found_complete = true;
            self.finished = true;
        }
        ScanStep::Deliver(ReadEntry::new(found.id, data, self.data_source))
    }

    /// How the read ended, once there is nothing more to read.
    pub fn finish(self) -> (res: ReadRangeResult)
        requires
            self.wf(),
            self.is_finished(),
        ensures
            result_is(res, outcome_of(self.rest(), self.query())),
    {
        let at_end = match (&self.last_processed_id, &self.until_id) {
            (Some(last), Some(until)) => until.is_at_most(last),
            _ => false,
        };
        if !self.missed && (self.found_complete || at_end) {
            return ReadRangeResult::Complete;
        }
        let last_id_in_file = match self.last_processed_id {
            Some(id) => id,
            None => self.from_id,
        };
        ReadRangeResult::PartialRead { last_read_id: self.last_read_id, last_id_in_file }
    }
}

fn read_range(
    content: Bytes,
    from_id: &UintN,
    until_id: &Option<UintN>,
    step: usize,
    data_source: DataSource,
    header_required: bool,
) -> (res: Result<(Vec<ReadEntry>, ReadRangeResult), WalError>)
    ensures
        ({
            let q = query(from_id@, uintn::opt_value(*until_id), step);
            match (res, range_of(buf::bytes_of(content), q, header_required)) {
                (Ok((es, r)), Ok((d, o))) => delivers(es@, d, data_source) && result_is(r, o),
                (Err(e), Err(f)) => e == WalError::AnyWalHeaderError(f),
                _ => false,
            }
        }),
{
    let ghost q = query(from_id@, uintn::opt_value(*until_id), step);
    let mut out: Vec<ReadEntry> = Vec::new();
    let mut scan = match RangeScan::start(
        content,
        from_id,
        until_id,
        step,
        data_source,
        header_required,
    ) {
        Ok(RangeStart::Scanning(s)) => s,
        Ok(RangeStart::Nothing(r)) => {
            return Ok((out, r));
        },
        Err(e) => {
            return Err(e);
        },
    };
    let ghost first = scan.rest();
    let ghost mut seen: Seq<(nat, Seq<u8>)> = Seq::empty();
    assert(first.delivered =~= seen + scan.rest().delivered);
    let mut going: bool = true;
    while going
        invariant
            scan.wf(),
            scan.query() == q,
            scan.source() == data_source,
            delivers(out@, seen, data_source),
            first.delivered == seen + scan.rest().delivered,
            outcome_of(first, q) == outcome_of(scan.rest(), q),
            !going ==> scan.is_finished() && scan.rest().delivered.len() == 0,
        decreases scan.fuel() + (if going {
                1int
            } else {
                0int
            }),
    {
        match scan.step() {
            ScanStep::Deliver(e) => {
                proof {
                    let x = (e@.id, e@.data);
                    assert(seen + (seq![x] + scan.rest().delivered) =~= seen.push(x)
                        + scan.rest().delivered);
                    seen = seen.push(x);
                }
                out.push(e);
            },
            ScanStep::Passed => {},
            ScanStep::End => {
                going = false;
            },
        }
    }
    assert(first.delivered =~= seen);
    Ok((out, scan.finish()))
}

/// Reads a range of an archived file's log contents: the entries with ids from
/// `from_id` to `until_id`, every `step`th of them. Contents that end within
/// their header have nothing to read.
pub fn read_wal_bytes_range(
    content: &Bytes,
    from_id: &UintN,
    until_id: &Option<UintN>,
    step: usize,
    data_source: DataSource,
) -> (res: Result<(Vec<ReadEntry>, ReadRangeResult), WalError>)
    ensures
        ({
            let q = query(from_id@, uintn::opt_value(*until_id), step);
            match (res, range_of(buf::bytes_of(*content), q, false)) {
                (Ok((es, r)), Ok((d, o))) => delivers(es@, d, data_source) && result_is(r, o),
                (Err(e), Err(f)) => e == WalError::AnyWalHeaderError(f),
                _ => false,
            }
        }),
{
    read_range(buf::bytes_clone(content), from_id, until_id, step, data_source, false)
}

/// Reads a range of a log file's contents: the entries with ids from `from_id`
/// to `until_id`, every `step`th of them. A file that ends within its header
/// is an error, unless it is empty.
pub fn read_wal_file_range(
    content: Bytes,
    from_id: &UintN,
    until_id: &Option<UintN>,
    step: usize,
    data_source: DataSource,
) -> (res: Result<(Vec<ReadEntry>, ReadRangeResult), WalError>)
    ensures
        ({
            let q = query(from_id@, uintn::opt_value(*until_id), step);
            match (res, range_of(buf::bytes_of(content), q, true)) {
                (Ok((es, r)), Ok((d, o))) => delivers(es@, d, data_source) && result_is(r, o),
                (Err(e), Err(f)) => e == WalError::AnyWalHeaderError(f),
                _ => false,
            }
        }),
{
    read_range(content, from_id, until_id, step, data_source, true)
}

} // verus!
