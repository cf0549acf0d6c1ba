//! The tail of a log file: what has been handed to it, what is in the file, and
//! what may be reported as durable.
//!
//! An acknowledgement is a watermark: to report an entry says that the entry
//! and all before it are in the file. The file itself is written elsewhere;
//! here is decided what goes into it, in which order, and what follows from a
//! write that succeeded or failed.

use bytes::{Bytes, BytesMut};
use std::time::Duration;
use vstd::prelude::*;
use crate::buf;
use crate::errors::WalError;
use crate::interval;
use crate::page_pool;
use crate::page_pool::{PagePool, PendingWrite, PoolView};
use crate::types::QueueId;
use crate::uintn::UintN;
use crate::wal_arena::{WalArena, POOL_FREE};

verus! {

/// How often a write is tried before it is given up.
pub const MAX_RETRIES: u32 = 1000;

/// The wait between two tries, in milliseconds.
pub const RETRY_DELAY_MS: u64 = 10;

#[derive(Debug)]
pub struct AckFileWriterSettings {
    pub max_buffer_size: usize,
    pub max_file_size: u64,
    pub write_interval: Duration,
    pub fsync: bool,
}

impl Clone for AckFileWriterSettings {
    fn clone(&self) -> (res: Self)
        ensures
            res == *self,
    {
        AckFileWriterSettings {
            max_buffer_size: self.max_buffer_size,
            max_file_size: self.max_file_size,
            write_interval: self.write_interval,
            fsync: self.fsync,
        }
    }
}

impl Default for AckFileWriterSettings {
    fn default() -> (res: Self)
        ensures
            res.max_buffer_size == 128 * 1024 * 1024,
            res.max_file_size == 128 * 1024 * 1024,
            interval::millis_of(res.write_interval) == 20,
            res.fsync,
    {
        AckFileWriterSettings {
            max_buffer_size: 128 * 1024 * 1024,
            max_file_size: 128 * 1024 * 1024,
            write_interval: interval::millis(20),
            fsync: true,
        }
    }
}

// ---------------------------------------------------------------------------
// What a writer holds.

/// An entry that was handed over and is not reported yet. `end` is how many
/// buffered bytes had been handed over once it was.
struct PendingAck {
    queue_id: QueueId,
    entry_id: UintN,
    buffered: bool,
    end: Ghost<nat>,
}

pub struct AckView {
    pub queue: Seq<char>,
    pub id: nat,
    pub buffered: bool,
    pub end: nat,
}

pub struct TailView {
    /// All the bytes that were handed over to be buffered, in order.
    pub handed: Seq<u8>,
    /// How many of them are in the file.
    pub written: nat,
    /// Those that are being written, with the number of entries that they
    /// complete.
    pub in_flight: Option<(Seq<u8>, nat)>,
    /// Those behind.
    pub buffer: Seq<u8>,
    /// The entries to report, in the order they were handed over.
    pub acks: Seq<AckView>,
    /// The header and what was buffered for the file.
    pub current_size: nat,
    /// The length of the file as far as it is known to be good.
    pub flushed_len: nat,
    pub pooled: bool,
}

/// How many entries, from the first on, have their bytes in the buffer's
/// stream and not in a page.
pub open spec fn lead(acks: Seq<AckView>) -> nat
    decreases acks.len(),
{
    if acks.len() == 0 || !acks[0].buffered {
        0
    } else {
        1 + lead(acks.skip(1))
    }
}

/// How many entries, from the first on, have ids up to `last`.
pub open spec fn up_to(acks: Seq<AckView>, last: u64) -> nat
    decreases acks.len(),
{
    if acks.len() == 0 || acks[0].id > last {
        0
    } else {
        1 + up_to(acks.skip(1), last)
    }
}

impl TailView {
    /// What is being written.
    pub open spec fn flight(self) -> Seq<u8> {
        match self.in_flight {
            Some((data, cut)) => data,
            None => Seq::empty(),
        }
    }

    pub open spec fn wf(self) -> bool {
        let a = self.written as int;
        let b = a + self.flight().len();
        // Nothing that was handed over is lost or out of place.
        &&& b + self.buffer.len() == self.handed.len()
        &&& self.flight() == self.handed.subrange(a, b)
        &&& self.buffer == self.handed.skip(b)
        &&& self.flight().len() + self.buffer.len() <= isize::MAX
        &&& self.acks.len() <= usize::MAX
        &&& forall|i: int| 0 <= i < self.acks.len() ==> (#[trigger] self.acks[i]).end <= self.handed.len()
        &&& self.in_flight matches Some((data, cut)) ==> {
            &&& data.len() > 0
            &&& cut <= self.acks.len()
            &&& forall|i: int|
                0 <= i < cut ==> (#[trigger] self.acks[i]).buffered && self.acks[i].end <= b
        }
    }

    /// An entry was handed over.
    pub open spec fn took(self, queue: Seq<char>, id: nat, entry: Seq<u8>, in_pool: bool) -> TailView {
        if self.pooled && in_pool {
            TailView {
                acks: self.acks.push(
                    AckView { queue, id, buffered: false, end: self.handed.len() },
                ),
                ..self
            }
        } else {
            TailView {
                handed: self.handed + entry,
                buffer: self.buffer + entry,
                current_size: self.current_size + entry.len(),
                acks: self.acks.push(
                    AckView { queue, id, buffered: true, end: self.handed.len() + entry.len() },
                ),
                ..self
            }
        }
    }

    /// The first `n` entries need no report any more.
    pub open spec fn reported(self, n: nat) -> TailView {
        TailView { acks: self.acks.skip(n as int), ..self }
    }

    /// A write of the buffer begins.
    pub open spec fn flushing(self) -> TailView {
        TailView {
            in_flight: Some((self.buffer, lead(self.acks))),
            buffer: Seq::empty(),
            ..self
        }
    }

    /// The write that was under way is in the file.
    pub open spec fn flushed(self) -> TailView {
        match self.in_flight {
            Some((data, cut)) => TailView {
                written: self.written + data.len(),
                in_flight: None,
                flushed_len: self.flushed_len + data.len(),
                acks: self.acks.skip(cut as int),
                ..self
            },
            None => self,
        }
    }

    /// The write that was under way is not in the file: its bytes are owed
    /// again, before all others.
    pub open spec fn restored(self) -> TailView {
        TailView { in_flight: None, buffer: self.flight() + self.buffer, ..self }
    }
}

/// The last of the first `n` entries.
pub open spec fn highest(acks: Seq<AckView>, n: nat) -> Option<(Seq<char>, nat)> {
    if n == 0 {
        None
    } else {
        Some((acks[n - 1].queue, acks[n - 1].id))
    }
}

/// A report by its contents.
pub open spec fn ack_view(ack: Option<(QueueId, UintN)>) -> Option<(Seq<char>, nat)> {
    match ack {
        Some((queue, id)) => Some((queue@, id@)),
        None => None,
    }
}

pub proof fn lemma_lead(acks: Seq<AckView>)
    ensures
        lead(acks) <= acks.len(),
        forall|i: int| 0 <= i < lead(acks) ==> (#[trigger] acks[i]).buffered,
        lead(acks) < acks.len() ==> !acks[lead(acks) as int].buffered,
    decreases acks.len(),
{
    if acks.len() > 0 && acks[0].buffered {
        let rest = acks.skip(1);
        lemma_lead(rest);
        assert forall|i: int| 0 <= i < lead(acks) implies (#[trigger] acks[i]).buffered by {
            if i > 0 {
                assert(rest[i - 1].buffered);
            }
        }
    }
}

proof fn lemma_lead_is(acks: Seq<AckView>, n: nat)
    requires
        n <= acks.len(),
        forall|i: int| 0 <= i < n ==> (#[trigger] acks[i]).buffered,
        n < acks.len() ==> !acks[n as int].buffered,
    ensures
        lead(acks) == n,
{
    lemma_lead(acks);
    if lead(acks) < n {
        assert(acks[lead(acks) as int].buffered);
    } else if n < lead(acks) {
        assert(acks[n as int].buffered);
    }
}

pub proof fn lemma_up_to(acks: Seq<AckView>, last: u64)
    ensures
        up_to(acks, last) <= acks.len(),
        forall|i: int| 0 <= i < up_to(acks, last) ==> (#[trigger] acks[i]).id <= last,
        up_to(acks, last) < acks.len() ==> acks[up_to(acks, last) as int].id > last,
    decreases acks.len(),
{
    if acks.len() > 0 && acks[0].id <= last {
        let rest = acks.skip(1);
        lemma_up_to(rest, last);
        assert forall|i: int| 0 <= i < up_to(acks, last) implies (#[trigger] acks[i]).id <= last by {
            if i > 0 {
                assert(rest[i - 1].id <= last);
            }
        }
    }
}

proof fn lemma_up_to_is(acks: Seq<AckView>, last: u64, n: nat)
    requires
        n <= acks.len(),
        forall|i: int| 0 <= i < n ==> (#[trigger] acks[i]).id <= last,
        n < acks.len() ==> acks[n as int].id > last,
    ensures
        up_to(acks, last) == n,
{
    lemma_up_to(acks, last);
    if up_to(acks, last) < n {
        assert(acks[up_to(acks, last) as int].id <= last);
    } else if n < up_to(acks, last) {
        assert(acks[n as int].id <= last);
    }
}

/// What a flush of the buffer begins with.
pub enum FlushStart {
    /// Nothing is owed to the file. All that was buffered is in it, and this
    /// may be reported.
    Settled(Option<(QueueId, UintN)>),
    /// These bytes are to be written.
    Write(Bytes),
}

/// The writer of a log file.
pub struct AckFileWriter {
    settings: AckFileWriterSettings,
    pooled: bool,
    buffer: BytesMut,
    in_flight: Option<(Bytes, usize)>,
    acks: Vec<PendingAck>,
    current_size: u64,
    flushed_len: u64,
    handed: Ghost<Seq<u8>>,
    written: Ghost<nat>,
}

impl PendingAck {
    spec fn spec_view(self) -> AckView {
        AckView {
            queue: self.queue_id@,
            id: self.entry_id@,
            buffered: self.buffered,
            end: self.end@,
        }
    }
}

impl View for AckFileWriter {
    type V = TailView;

    closed spec fn view(&self) -> TailView {
        TailView {
            handed: self.handed@,
            written: self.written@,
            in_flight: match self.in_flight {
                Some((data, cut)) => Some((buf::bytes_of(data), cut as nat)),
                None => None,
            },
            buffer: buf::buffer_of(self.buffer),
            acks: Seq::new(self.acks@.len(), |i: int| self.acks@[i].spec_view()),
            current_size: self.current_size as nat,
            flushed_len: self.flushed_len as nat,
            pooled: self.pooled,
        }
    }
}

impl AckFileWriter {
    /// What the writer was set up with.
    pub closed spec fn spec_settings(&self) -> AckFileWriterSettings {
        self.settings
    }

    /// A writer for a file that holds a header of `header_len` bytes and
    /// nothing else.
    pub fn new(settings: AckFileWriterSettings, header_len: u64, pooled: bool) -> (res: Self)
        ensures
            res.spec_settings() == settings,
            res@ == (TailView {
                handed: Seq::empty(),
                written: 0,
                in_flight: None,
                buffer: Seq::empty(),
                acks: Seq::empty(),
                current_size: header_len as nat,
                flushed_len: header_len as nat,
                pooled,
            }),
            res@.wf(),
    {
        let res = AckFileWriter {
            settings,
            pooled,
            buffer: buf::empty_buffer(),
            in_flight: None,
            acks: Vec::new(),
            current_size: header_len,
            flushed_len: header_len,
            handed: Ghost(Seq::empty()),
            written: Ghost(0),
        };
        assert(res@.acks =~= Seq::empty());
        assert(res@.flight() =~= res@.handed.subrange(0, 0));
        assert(res@.buffer =~= res@.handed.skip(0));
        res
    }

    /// Whether `size` more bytes keep the file within its maximum.
    pub fn can_add(&self, size: usize) -> (res: bool)
        ensures
            res == (self@.current_size + size <= self.spec_settings().max_file_size),
    {
        self.can_hold(size as u64)
    }

    /// As [`AckFileWriter::can_add`], for a size that may exceed a `usize`.
    pub(crate) fn can_hold(&self, size: u64) -> (res: bool)
        ensures
            res == (self@.current_size + size <= self.spec_settings().max_file_size),
    {
        if self.current_size > self.settings.max_file_size {
            false
        } else {
            size <= self.settings.max_file_size - self.current_size
        }
    }

    /// Whether `len` more bytes can be buffered: an allocation and a counter
    /// have their limits.
    pub fn has_room(&self, len: usize) -> (res: bool)
        requires
            self@.wf(),
        ensures
            res == (self@.flight().len() + self@.buffer.len() + len <= isize::MAX
                && self@.current_size + len <= u64::MAX && self@.acks.len() < usize::MAX),
    {
        let owed: usize = buf::buffer_slice(&self.buffer).len() + match &self.in_flight {
            Some((data, _)) => buf::bytes_slice(data).len(),
            None => 0,
        };
        len <= isize::MAX as usize - owed && len as u64 <= u64::MAX - self.current_size
            && self.acks.len() < usize::MAX
    }

    /// Records that an entry belongs to this file and buffers its bytes. Says
    /// whether the buffer is full.
    pub fn write(&mut self, queue_id: QueueId, entry_id: UintN, entry: &Bytes) -> (full: bool)
        requires
            old(self)@.wf(),
            old(self)@.flight().len() + old(self)@.buffer.len() + buf::bytes_of(*entry).len()
                <= isize::MAX,
            old(self)@.current_size + buf::bytes_of(*entry).len() <= u64::MAX,
            old(self)@.acks.len() < usize::MAX,
        ensures
            final(self)@.wf(),
            final(self)@ == old(self)@.took(queue_id@, entry_id@, buf::bytes_of(*entry), false),
            final(self).spec_settings() == old(self).spec_settings(),
            full == (final(self)@.buffer.len() >= old(self).spec_settings().max_buffer_size),
    {
        self.write_maybe_pooled(queue_id, entry_id, entry, false)
    }

    /// Records that an entry belongs to this file. With `in_pool`, its bytes
    /// are in one of the pool's pages and are not buffered a second time. Says
    /// whether the buffer is full.
    pub fn write_maybe_pooled(
        &mut self,
        queue_id: QueueId,
        entry_id: UintN,
        entry: &Bytes,
        in_pool: bool,
    ) -> (full: bool)
        requires
            old(self)@.wf(),
            old(self)@.pooled && in_pool || old(self)@.flight().len() + old(self)@.buffer.len()
                + buf::bytes_of(*entry).len() <= isize::MAX,
            old(self)@.pooled && in_pool || old(self)@.current_size + buf::bytes_of(*entry).len()
                <= u64::MAX,
            old(self)@.acks.len() < usize::MAX,
        ensures
            final(self)@.wf(),
            final(self)@ == old(self)@.took(queue_id@, entry_id@, buf::bytes_of(*entry), in_pool),
            final(self).spec_settings() == old(self).spec_settings(),
            full == (final(self)@.buffer.len() >= old(self).spec_settings().max_buffer_size),
    {
        let ghost before = self@;
        let ghost bytes = buf::bytes_of(*entry);
        let buffered = !(self.pooled && in_pool);
        if buffered {
            let slice = buf::bytes_slice(entry);
            buf::buffer_extend(&mut self.buffer, slice);
            self.current_size = self.current_size + slice.len() as u64;
            proof {
                self.handed@ = self.handed@ + bytes;
            }
        }
        let ghost end = self.handed@.len();
        self.acks.push(PendingAck { queue_id, entry_id, buffered, end: Ghost(end) });
        let full = buf::buffer_slice(&self.buffer).len() >= self.settings.max_buffer_size;
        proof {
            let want = before.took(queue_id@, entry_id@, bytes, in_pool);
            assert(self@.acks =~= want.acks);
            let b = before.written + before.flight().len();
            assert(self@.flight() =~= want.handed.subrange(before.written as int, b as int));
            assert(self@.buffer =~= want.handed.skip(b as int));
        }
        full
    }

    fn buffered_run_len(&self) -> (n: usize)
        requires
            self@.wf(),
        ensures
            n == lead(self@.acks),
    {
        let mut n: usize = 0;
        while n < self.acks.len() && self.acks[n].buffered
            invariant
                n <= self.acks@.len(),
                forall|i: int| 0 <= i < n ==> (#[trigger] self.acks@[i]).buffered,
            decreases self.acks@.len() - n,
        {
            n = n + 1;
        }
        proof {
            let acks = self@.acks;
            assert forall|i: int| 0 <= i < n implies (#[trigger] acks[i]).buffered by {
                assert(self.acks@[i].buffered);
            }
            lemma_lead_is(acks, n as nat);
        }
        n
    }

    fn take_acks(&mut self, cut: usize) -> (ack: Option<(QueueId, UintN)>)
        requires
            old(self)@.wf(),
            old(self)@.in_flight is None,
            cut <= old(self)@.acks.len(),
        ensures
            final(self)@.wf(),
            final(self)@ == old(self)@.reported(cut as nat),
            final(self).spec_settings() == old(self).spec_settings(),
            ack_view(ack) == highest(old(self)@.acks, cut as nat),
    {
        let ghost before = self@;
        let ghost raw = self.acks@;
        let mut done = self.acks.split_off(cut);
        std::mem::swap(&mut done, &mut self.acks);
        proof {
            assert(self.acks@ =~= raw.skip(cut as int));
            assert(self@.acks =~= before.acks.skip(cut as int));
        }
        match done.pop() {
            Some(ack) => {
                assert(ack == raw[cut - 1]);
                assert(before.acks[cut - 1] == raw[cut - 1].spec_view());
                Some((ack.queue_id, ack.entry_id))
            },
            None => None,
        }
    }

    /// Begins a flush of the buffer. Where nothing is owed to the file, the
    /// entries at the head whose bytes were buffered are in it and may be
    /// reported.
    pub fn begin_flush(&mut self) -> (res: FlushStart)
        requires
            old(self)@.wf(),
            old(self)@.in_flight is None,
        ensures
            final(self)@.wf(),
            final(self).spec_settings() == old(self).spec_settings(),
            match res {
                FlushStart::Settled(ack) => {
                    &&& old(self)@.buffer.len() == 0
                    &&& final(self)@ == old(self)@.reported(lead(old(self)@.acks))
                    &&& ack_view(ack) == highest(old(self)@.acks, lead(old(self)@.acks))
                },
                FlushStart::Write(data) => {
                    &&& old(self)@.buffer.len() > 0
                    &&& buf::bytes_of(data) == old(self)@.buffer
                    &&& final(self)@ == old(self)@.flushing()
                },
            },
    {
        let ghost before = self@;
        let cut: usize = self.buffered_run_len();
        proof {
            lemma_lead(before.acks);
        }
        if buf::buffer_slice(&self.buffer).len() == 0 {
            return FlushStart::Settled(self.take_acks(cut));
        }
        let data = buf::buffer_freeze(buf::buffer_split(&mut self.buffer));
        let copy = buf::bytes_clone(&data);
        self.in_flight = Some((copy, cut));
        proof {
            assert(self@.acks =~= before.acks);
            let b = (before.written + before.buffer.len()) as int;
            assert(self@.flight() =~= self@.handed.subrange(before.written as int, b));
            assert(self@.buffer =~= self@.handed.skip(b));
        }
        FlushStart::Write(data)
    }

    /// Ends the flush that is under way. If its bytes are in the file, the
    /// entries that they complete need no report any more, and the last of
    /// them is to be reported. If not, the bytes go back to the head of the
    /// buffer, and nothing is reported.
    pub fn finish_flush(&mut self, wrote: bool) -> (ack: Option<(QueueId, UintN)>)
        requires
            old(self)@.wf(),
            old(self)@.in_flight is Some,
            old(self)@.flushed_len + old(self)@.flight().len() <= u64::MAX,
        ensures
            final(self)@.wf(),
            final(self).spec_settings() == old(self).spec_settings(),
            wrote ==> final(self)@ == old(self)@.flushed() && ack_view(ack) == highest(
                old(self)@.acks,
                (old(self)@.in_flight->0).1,
            ),
            !wrote ==> final(self)@ == old(self)@.restored() && ack is None,
    {
        let ghost before = self@;
        let mut taken: Option<(Bytes, usize)> = None;
        std::mem::swap(&mut taken, &mut self.in_flight);
        match taken {
            Some((data, cut)) => {
                let slice = buf::bytes_slice(&data);
                if wrote {
                    self.flushed_len = self.flushed_len + slice.len() as u64;
                    proof {
                        self.written@ = self.written@ + slice@.len();
                        assert(self@.acks =~= before.acks);
                        assert(self@.flight() =~= self@.handed.subrange(
                            self.written@ as int,
                            self.written@ as int,
                        ));
                    }
                    self.take_acks(cut)
                } else {
                    let mut owed = buf::empty_buffer();
                    buf::buffer_extend(&mut owed, slice);
                    buf::buffer_extend(&mut owed, buf::buffer_slice(&self.buffer));
                    self.buffer = owed;
                    proof {
                        assert(self@.acks =~= before.acks);
                        assert(self@.buffer =~= before.restored().buffer);
                        assert(self@.buffer =~= self@.handed.skip(before.written as int));
                        assert(self@.flight() =~= self@.handed.subrange(
                            before.written as int,
                            before.written as int,
                        ));
                    }
                    None
                }
            },
            None => None,
        }
    }

    /// Whether a flush has anything to do: the file is owed bytes, or a report
    /// can go out. A pooled entry at the head does not count: only the pool
    /// can move it.
    pub fn has_pending(&self, pool_has_pending: bool) -> (res: bool)
        requires
            self@.wf(),
        ensures
            res == (self@.buffer.len() > 0 || lead(self@.acks) > 0 || (self@.pooled
                && pool_has_pending)),
    {
        buf::buffer_slice(&self.buffer).len() > 0 || self.buffered_run_len() > 0 || (self.pooled
            && pool_has_pending)
    }

    /// Whether pages may be written now that the buffer was flushed, or could
    /// not be. Bytes that are still owed come before anything that follows
    /// them.
    pub fn pages_may_follow(&self, buffer_flushed: bool) -> (res: bool)
        ensures
            res == (buffer_flushed && self@.pooled),
    {
        buffer_flushed && self.pooled
    }

    /// What a close comes to, once its flush has ended. With `clean`, the flush
    /// wrote everything that was owed to the file; if it did not, the close
    /// says so.
    pub fn close(&self, clean: bool) -> (res: Result<(), WalError>)
        ensures
            clean ==> res == Ok::<(), WalError>(()),
            !clean ==> (res matches Err(WalError::IoError(message)) && message@
                == "the closing flush could not write everything owed to the file"@),
    {
        if clean {
            Ok(())
        } else {
            Err(
                WalError::IoError(
                    String::from_str(
                        "the closing flush could not write everything owed to the file",
                    ),
                ),
            )
        }
    }

    /// The length to cut the file back to after a write that failed.
    pub fn flushed_len(&self) -> (res: u64)
        ensures
            res == self@.flushed_len,
    {
        self.flushed_len
    }

    /// Whether the file may be synced after a write.
    pub fn fsync(&self) -> (res: bool)
        ensures
            res == self.spec_settings().fsync,
    {
        self.settings.fsync
    }
}

// ---------------------------------------------------------------------------
// Pages.

/// What a flush of the pool's pages is to write.
pub struct PoolFlush {
    /// The runs with their bytes, in id order.
    pub runs: Vec<(PendingWrite, Bytes)>,
    /// The last entry of the last run.
    pub last_entry_id: u64,
}

/// The length of runs taken together.
pub open spec fn total_len(runs: Seq<(PendingWrite, Seq<u8>)>) -> nat
    decreases runs.len(),
{
    if runs.len() == 0 {
        0
    } else {
        total_len(runs.drop_last()) + runs.last().1.len()
    }
}

/// A pool once these runs are committed, as far as they still end where an
/// entry of their page ends.
pub open spec fn all_committed(v: PoolView, runs: Seq<(PendingWrite, Seq<u8>)>) -> PoolView
    decreases runs.len(),
{
    if runs.len() == 0 {
        v
    } else {
        let before = all_committed(v, runs.drop_last());
        if page_pool::ends_with_entry(v.ring, runs.last().0) {
            before.committed(runs.last().0)
        } else {
            before
        }
    }
}

/// The id after another.
pub open spec fn next_id(id: u64) -> u64 {
    if id == u64::MAX {
        id
    } else {
        (id + 1) as u64
    }
}

/// Whether every run ends where an entry of its page ends.
pub open spec fn runs_fit(v: PoolView, runs: Seq<(PendingWrite, Seq<u8>)>) -> bool {
    forall|i: int|
        0 <= i < runs.len() ==> page_pool::ends_with_entry(v.ring, (#[trigger] runs[i]).0)
}

proof fn lemma_total_len_grows(runs: Seq<(PendingWrite, Seq<u8>)>, n: int)
    requires
        0 <= n <= runs.len(),
    ensures
        total_len(runs.take(n)) <= total_len(runs),
    decreases runs.len() - n,
{
    if n < runs.len() {
        lemma_total_len_grows(runs, n + 1);
        assert(runs.take(n + 1).drop_last() =~= runs.take(n));
    } else {
        assert(runs.take(n) =~= runs);
    }
}

/// Committing runs moves nothing but the marks up to which pages are written.
pub proof fn lemma_all_committed(v: PoolView, runs: Seq<(PendingWrite, Seq<u8>)>)
    ensures
        all_committed(v, runs).ring == v.ring,
        all_committed(v, runs).epochs == v.epochs,
        all_committed(v, runs).handed_through == v.handed_through,
    decreases runs.len(),
{
    if runs.len() > 0 {
        lemma_all_committed(v, runs.drop_last());
    }
}

/// The runs that pages have pending for a file, if there are any. Nothing
/// changes: they are pending until the flush ends well.
pub fn begin_pool_flush(pool: &PagePool, epoch: u64) -> (res: Option<PoolFlush>)
    requires
        pool.wf(),
    ensures
        match res {
            Some(f) => {
                &&& f.runs@.len() > 0
                &&& page_pool::pending_is(pool@, page_pool::pending_views(f.runs@), epoch)
                &&& runs_fit(pool@, page_pool::pending_views(f.runs@))
                &&& f.last_entry_id == f.runs@.last().0.last_entry_id
            },
            None => forall|k: int|
                0 <= k < pool@.ring.pages.len() ==> #[trigger] pool@.run(k, epoch) is None,
        },
{
    let runs = pool.take_pending(epoch);
    let ghost views = page_pool::pending_views(runs@);
    if runs.len() == 0 {
        return None;
    }
    let last_entry_id: u64 = runs[runs.len() - 1].0.last_entry_id;
    proof {
        assert forall|i: int| 0 <= i < views.len() implies page_pool::ends_with_entry(
            pool@.ring,
            (#[trigger] views[i]).0,
        ) by {
            page_pool::lemma_run_bounds(pool@, views[i].0.page as int, epoch);
        }
    }
    Some(PoolFlush { runs, last_entry_id })
}

fn commit_runs(pool: &mut PagePool, flush: &PoolFlush)
    requires
        old(pool).wf(),
    ensures
        final(pool).wf(),
        final(pool)@ == all_committed(old(pool)@, page_pool::pending_views(flush.runs@)),
{
    let ghost v = pool@;
    let ghost views = page_pool::pending_views(flush.runs@);
    let mut i: usize = 0;
    assert(views.take(0) =~= Seq::empty());
    while i < flush.runs.len()
        invariant
            i <= flush.runs@.len(),
            pool.wf(),
            views == page_pool::pending_views(flush.runs@),
            v == old(pool)@,
            pool@ == all_committed(v, views.take(i as int)),
        decreases flush.runs@.len() - i,
    {
        proof {
            lemma_all_committed(v, views.take(i as int));
            assert(views.take(i + 1).drop_last() =~= views.take(i as int));
            assert(views[i as int].0 == flush.runs@[i as int].0);
        }
        if pool.run_fits(&flush.runs[i].0) {
            pool.commit_written(&flush.runs[i].0);
        }
        i = i + 1;
    }
    assert(views.take(i as int) =~= views);
}

impl AckFileWriter {
    fn count_runs(&mut self, flush: &PoolFlush)
        requires
            old(self)@.wf(),
            old(self)@.flushed_len + total_len(page_pool::pending_views(flush.runs@)) <= u64::MAX,
        ensures
            final(self)@.wf(),
            final(self).spec_settings() == old(self).spec_settings(),
            final(self)@ == (TailView {
                flushed_len: old(self)@.flushed_len + total_len(
                    page_pool::pending_views(flush.runs@),
                ),
                ..old(self)@
            }),
    {
        let ghost before = self@;
        let ghost views = page_pool::pending_views(flush.runs@);
        let mut len: u64 = self.flushed_len;
        let mut i: usize = 0;
        assert(views.take(0) =~= Seq::empty());
        while i < flush.runs.len()
            invariant
                i <= flush.runs@.len(),
                views == page_pool::pending_views(flush.runs@),
                before.flushed_len + total_len(views) <= u64::MAX,
                len == before.flushed_len + total_len(views.take(i as int)),
            decreases flush.runs@.len() - i,
        {
            proof {
                lemma_total_len_grows(views, i + 1);
                assert(views.take(i + 1).drop_last() =~= views.take(i as int));
                assert(views[i as int].1 == buf::bytes_of(flush.runs@[i as int].1));
            }
            len = len + buf::bytes_slice(&flush.runs[i].1).len() as u64;
            i = i + 1;
        }
        self.flushed_len = len;
        proof {
            assert(views.take(i as int) =~= views);
            assert(self@.acks =~= before.acks);
        }
    }

    /// Takes the entries with ids up to `last`, and says which is to be
    /// reported: the last of them.
    fn take_durable_ack(&mut self, last: u64) -> (ack: Option<(QueueId, UintN)>)
        requires
            old(self)@.wf(),
            old(self)@.in_flight is None,
        ensures
            final(self)@.wf(),
            final(self).spec_settings() == old(self).spec_settings(),
            final(self)@ == old(self)@.reported(up_to(old(self)@.acks, last)),
            ack_view(ack) == highest(old(self)@.acks, up_to(old(self)@.acks, last)),
    {
        let ghost acks = self@.acks;
        let mut cut: usize = 0;
        let mut going = true;
        while going && cut < self.acks.len()
            invariant
                acks == self@.acks,
                cut <= self.acks@.len(),
                forall|i: int| 0 <= i < cut ==> (#[trigger] acks[i]).id <= last,
                !going ==> cut < acks.len() && acks[cut as int].id > last,
            decreases self.acks@.len() - cut + (if going {
                1int
            } else {
                0int
            }),
        {
            assert(acks[cut as int] == self.acks@[cut as int].spec_view());
            match self.acks[cut].entry_id.to_u64() {
                Ok(id) => {
                    if id <= last {
                        cut = cut + 1;
                    } else {
                        going = false;
                    }
                },
                Err(_) => {
                    going = false;
                },
            }
        }
        proof {
            lemma_up_to_is(acks, last, cut as nat);
        }
        self.take_acks(cut)
    }

    /// The runs of a flush are in the file: the pool is told that they are
    /// written and durable, but for what a page no longer holds, and the entries that are now durable need no
    /// report any more but for the last of them. Only to be called once the
    /// file was synced.
    pub fn finish_pool_flush(&mut self, pool: &mut PagePool, flush: &PoolFlush) -> (ack: Option<
        (QueueId, UintN),
    >)
        requires
            old(self)@.wf(),
            old(self)@.in_flight is None,
            old(self)@.flushed_len + total_len(page_pool::pending_views(flush.runs@)) <= u64::MAX,
            old(pool).wf(),
        ensures
            final(self)@.wf(),
            final(self).spec_settings() == old(self).spec_settings(),
            final(self)@ == (TailView {
                flushed_len: old(self)@.flushed_len + total_len(
                    page_pool::pending_views(flush.runs@),
                ),
                ..old(self)@
            }).reported(up_to(old(self)@.acks, flush.last_entry_id)),
            ack_view(ack) == highest(
                old(self)@.acks,
                up_to(old(self)@.acks, flush.last_entry_id),
            ),
            final(pool).wf(),
            final(pool)@ == all_committed(
                old(pool)@,
                page_pool::pending_views(flush.runs@),
            ).durable(next_id(flush.last_entry_id)),
    {
        self.count_runs(flush);
        commit_runs(pool, flush);
        pool.mark_durable(flush.last_entry_id.saturating_add(1));
        self.take_durable_ack(flush.last_entry_id)
    }

    /// As [`AckFileWriter::finish_pool_flush`], for a pool whose pages come
    /// from an arena.
    pub fn finish_pool_flush_in(
        &mut self,
        pool: &mut PagePool,
        arena: &mut WalArena,
        flush: &PoolFlush,
    ) -> (ack: Option<(QueueId, UintN)>)
        requires
            old(self)@.wf(),
            old(self)@.in_flight is None,
            old(self)@.flushed_len + total_len(page_pool::pending_views(flush.runs@)) <= u64::MAX,
            old(pool).wf(),
            old(pool)@.ring.backed_by(old(arena)@),
        ensures
            final(self)@.wf(),
            final(self).spec_settings() == old(self).spec_settings(),
            final(self)@ == (TailView {
                flushed_len: old(self)@.flushed_len + total_len(
                    page_pool::pending_views(flush.runs@),
                ),
                ..old(self)@
            }).reported(up_to(old(self)@.acks, flush.last_entry_id)),
            ack_view(ack) == highest(
                old(self)@.acks,
                up_to(old(self)@.acks, flush.last_entry_id),
            ),
            final(pool).wf(),
            final(pool)@ == all_committed(
                old(pool)@,
                page_pool::pending_views(flush.runs@),
            ).durable_in(next_id(flush.last_entry_id)),
            final(pool)@.ring.backed_by(final(arena)@),
            final(arena)@ == old(arena)@.given(
                old(pool)@.ring.first_slot->0 + final(pool)@.ring.pages.len() as int,
                old(pool)@.ring.pages.len() - final(pool)@.ring.pages.len(),
                POOL_FREE,
            ),
    {
        self.count_runs(flush);
        commit_runs(pool, flush);
        proof {
            lemma_all_committed(old(pool)@, page_pool::pending_views(flush.runs@));
        }
        pool.mark_durable_in(arena, flush.last_entry_id.saturating_add(1));
        self.take_durable_ack(flush.last_entry_id)
    }
}

// ---------------------------------------------------------------------------
// What always holds.

/// Every byte that was handed over is in the file, or being written, or
/// buffered: none is lost, none twice there, and none out of order.
pub proof fn no_byte_is_lost(v: TailView)
    requires
        v.wf(),
    ensures
        v.handed == v.handed.take(v.written as int) + v.flight() + v.buffer,
{
    assert(v.handed =~= v.handed.take(v.written as int) + v.flight() + v.buffer);
}

/// A write that failed changes nothing of what the file is owed.
pub proof fn failed_flush_keeps_the_order(v: TailView)
    requires
        v.wf(),
        v.in_flight is None,
    ensures
        v.flushing().restored().handed == v.handed,
        v.flushing().restored().written == v.written,
        v.flushing().restored().buffer == v.buffer,
        v.flushing().restored().acks == v.acks,
{
    assert(v.buffer + Seq::<u8>::empty() =~= v.buffer);
}

/// An entry that was buffered while a write was under way is not reported by
/// it, and what is reported has all its bytes in the file, with all the bytes
/// that were handed over before them.
pub proof fn report_follows_the_bytes(v: TailView, i: int)
    requires
        v.wf(),
        v.in_flight matches Some((data, cut)) && 0 <= i < cut,
    ensures
        v.acks[i].buffered,
        v.acks[i].end <= v.flushed().written,
{
}

/// With nothing owed to the file, what may be reported is in it.
pub proof fn settled_report_is_written(v: TailView, i: int)
    requires
        v.wf(),
        v.in_flight is None,
        v.buffer.len() == 0,
        0 <= i < lead(v.acks),
    ensures
        v.acks[i].buffered,
        v.acks[i].end <= v.written,
{
    lemma_lead(v.acks);
}

/// A report never passes an entry whose bytes are still in a page: an entry
/// behind it waits, though its own bytes are in the file.
pub proof fn pooled_entry_holds_reports_back(v: TailView, i: int)
    requires
        0 <= i < v.acks.len(),
        !v.acks[i].buffered,
    ensures
        lead(v.acks) <= i,
{
    lemma_lead(v.acks);
    if lead(v.acks) > i {
        assert(v.acks[i].buffered);
    }
}

/// A flush of pages reports no entry beyond the last that it wrote.
pub proof fn page_report_is_bounded(v: TailView, last: u64, i: int)
    requires
        0 <= i < up_to(v.acks, last),
    ensures
        v.acks[i].id <= last,
{
    lemma_up_to(v.acks, last);
}

proof fn lemma_committed_rises(v: PoolView, runs: Seq<(PendingWrite, Seq<u8>)>)
    requires
        forall|i: int| 0 <= i < runs.len() ==> (#[trigger] runs[i]).0.page < v.written.len(),
    ensures
        all_committed(v, runs).written.len() == v.written.len(),
        forall|k: int|
            0 <= k < v.written.len() ==> #[trigger] all_committed(v, runs).written[k]
                >= v.written[k],
    decreases runs.len(),
{
    if runs.len() > 0 {
        let front = runs.drop_last();
        assert forall|i: int| 0 <= i < front.len() implies (#[trigger] front[i]).0.page
            < v.written.len() by {
            assert(front[i] == runs[i]);
        }
        lemma_committed_rises(v, front);
        assert(runs[runs.len() - 1].0.page < v.written.len());
    }
}

proof fn lemma_committed_marks(v: PoolView, runs: Seq<(PendingWrite, Seq<u8>)>, i: int)
    requires
        v.wf(),
        runs_fit(v, runs),
        0 <= i < runs.len(),
    ensures
        all_committed(v, runs).written.len() == v.written.len(),
        all_committed(v, runs).written[runs[i].0.page as int] >= runs[i].0.to,
    decreases runs.len(),
{
    let front = runs.drop_last();
    assert forall|j: int| 0 <= j < front.len() implies ({
        let w = (#[trigger] front[j]).0;
        w.page < v.ring.pages.len() && page_pool::is_boundary(
            v.ring.pages[w.page as int],
            w.to as nat,
        )
    }) by {
        assert(front[j] == runs[j]);
    }
    lemma_committed_rises(v, front);
    let p = runs.last().0;
    assert(p == runs[runs.len() - 1].0);
    if i < front.len() {
        lemma_committed_marks(v, front, i);
        assert(front[i] == runs[i]);
    }
}

/// Once a flush of pages has ended well, they owe the file nothing of what was
/// handed over, and every entry that it wrote counts as durable.
pub proof fn flushed_pages_owe_nothing(
    v: PoolView,
    runs: Seq<(PendingWrite, Seq<u8>)>,
    epoch: u64,
    k: int,
)
    requires
        v.wf(),
        page_pool::pending_is(v, runs, epoch),
        0 <= k < v.ring.pages.len(),
    ensures
        all_committed(v, runs).run(k, epoch) is None,
        forall|i: int|
            0 <= i < runs.len() && runs.last().0.last_entry_id < u64::MAX ==> (
            #[trigger] runs[i]).0.last_entry_id < all_committed(v, runs).durable(
                next_id(runs.last().0.last_entry_id),
            ).ring.essential,
{
    lemma_all_committed(v, runs);
    assert forall|j: int| 0 <= j < runs.len() implies ({
        let w = (#[trigger] runs[j]).0;
        w.page < v.ring.pages.len() && page_pool::is_boundary(
            v.ring.pages[w.page as int],
            w.to as nat,
        )
    }) by {
        page_pool::lemma_run_bounds(v, runs[j].0.page as int, epoch);
    }
    let after = all_committed(v, runs);
    lemma_committed_rises(v, runs);
    if after.run(k, epoch) is Some {
        page_pool::lemma_run_bounds(v, k, epoch);
        assert(v.run(k, epoch) is Some);
        let i = choose|i: int| 0 <= i < runs.len() && (#[trigger] runs[i]).0.page == k;
        lemma_committed_marks(v, runs, i);
    }
    assert forall|i: int|
        0 <= i < runs.len() && runs.last().0.last_entry_id < u64::MAX implies (
    #[trigger] runs[i]).0.last_entry_id < after.durable(
        next_id(runs.last().0.last_entry_id),
    ).ring.essential by {
        let n = runs.len() - 1;
        if i < n {
            let (w, z) = (runs[i].0, runs[n].0);
            assert(w.last_entry_id < z.first_entry_id);
            page_pool::lemma_run_bounds(v, z.page as int, epoch);
        }
    }
}

} // verus!
