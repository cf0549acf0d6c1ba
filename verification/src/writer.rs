//! The writer of a queue's log: which entries go into which file.
//!
//! A file's entries carry no ids; a reader derives them from the number of
//! entries before the file. So the writer hands entries over in id order, and
//! begins a file with the id that its header states.

use bytes::Bytes;
use vstd::prelude::*;
use crate::ack_file_writer::{AckFileWriter, AckFileWriterSettings, TailView};
use crate::buf;
use crate::errors::WalError;
use crate::page_pool;
use crate::page_pool::{PagePool, Placement, PoolView, RotateHint};
use crate::reader;
use crate::types::QueueId;
use crate::uintn::UintN;
use crate::wal_entry_v1;
use crate::wal_entry_v1::{WalEntryV1, WalEntryV1Error};
use crate::wal_file;
use crate::wal_header;
use crate::wal_header::{HeaderView, WalHeader};
use crate::wal_header_v1;
use crate::wal_header_v1::{AnyHeaderView, AnyWalHeaderError, WalHeaderV1, WAL_HEADER_V1_MAX_SIZE};
use crate::wal_page;
use crate::wal_ring_v1;
use crate::wal_store::{WalFile, WalFileView, WalSettings};
use crate::writer_buffer;
use crate::writer_buffer::{BufferView, EntryView, OrderedBuffer};

verus! {

/// The wait between two tries to open the file that a rotation needs, in
/// milliseconds.
pub const ROTATE_RETRY_DELAY_MS: u64 = 10;

/// The tries between two complaints about a file that cannot be opened.
pub const ROTATE_WARN_EVERY: u32 = 500;

// ---------------------------------------------------------------------------
// What travels to the writer.

/// The payload that goes with an entry: a record on a page reaches the file
/// from there, so only its length travels.
pub open spec fn stripped(e: EntryView) -> EntryView {
    EntryView {
        data: if e.placement.in_pool {
            Seq::empty()
        } else {
            e.data
        },
        ..e
    }
}

// ---------------------------------------------------------------------------
// The writer.

pub struct WriterView {
    pub queue: Seq<char>,
    pub file_id: nat,
    pub header: HeaderView,
    /// Whether the file has an entry.
    pub has_written: bool,
    /// How many it has.
    pub entry_index: nat,
    pub order: BufferView,
    pub pooled: bool,
    /// Which file this is, counted from zero.
    pub file_epoch: nat,
    /// A close stood a rotation down, so there is no file.
    pub abandoned: bool,
}

/// The length of an entry's record.
pub open spec fn record_len(e: EntryView) -> nat {
    if e.placement.in_pool {
        e.placement.record_len as nat
    } else {
        e.data.len()
    }
}

impl WriterView {
    pub open spec fn wf(self) -> bool {
        self.order.wf()
    }

    /// Whether an entry has to begin a new file.
    pub open spec fn rotates(self, file: TailView, max_file_size: u64, e: EntryView) -> bool {
        match e.placement.rotate {
            RotateHint::WriterDecides => self.has_written && file.current_size
                + page_pool::entry_len(record_len(e)) > max_file_size,
            RotateHint::Before => true,
            RotateHint::NoRotation => false,
        }
    }

    /// Whether the bytes of an entry are on a page of this writer's pool.
    pub open spec fn on_page(self, e: EntryView) -> bool {
        self.pooled && e.placement.in_pool
    }

    /// What is buffered of an entry.
    pub open spec fn framed(self, e: EntryView) -> Seq<u8> {
        if self.on_page(e) {
            Seq::empty()
        } else {
            wal_entry_v1::entry(e.data)
        }
    }

    /// One more entry is in the file.
    pub open spec fn counted(self) -> WriterView {
        WriterView { has_written: true, entry_index: self.entry_index + 1, ..self }
    }

    /// On to the next file, which begins with this entry.
    pub open spec fn rotated(self, next_entry_id: nat, next_data_size: nat) -> WriterView {
        WriterView {
            file_id: self.file_id + 1,
            header: HeaderView {
                num_entries_before: next_entry_id,
                ..wal_header::resized(self.header, next_entry_id, next_data_size)
            },
            has_written: false,
            entry_index: 0,
            file_epoch: self.file_epoch + 1,
            ..self
        }
    }

    /// Whether what was decided about a record fits the file that the writer
    /// is on.
    pub open spec fn agrees(self, p: Placement) -> bool {
        match p.rotate {
            RotateHint::WriterDecides => true,
            RotateHint::Before => p.epoch == self.file_epoch + 1,
            RotateHint::NoRotation => p.epoch == self.file_epoch,
        }
    }
}

/// Why a run of entries ended early.
#[derive(Debug, Clone, Copy, PartialEq, Eq, Structural)]
pub enum RunError {
    /// A close stood a rotation down, so the writer has no file.
    Abandoned,
    /// A record of this length has no entry.
    TooLarge(usize),
}

/// Whether an error says this.
pub open spec fn is_run_error(e: WalError, r: RunError) -> bool {
    match r {
        RunError::Abandoned => e matches WalError::IoError(message) && message@
            == "the writer's rotation was abandoned by a close"@,
        RunError::TooLarge(len) => e == WalError::WalEntryV1Error(
            WalEntryV1Error::RecordTooLarge(len),
        ),
    }
}

fn run_error(r: RunError) -> (res: WalError)
    ensures
        is_run_error(res, r),
{
    match r {
        RunError::Abandoned => WalError::IoError(
            String::from_str("the writer's rotation was abandoned by a close"),
        ),
        RunError::TooLarge(len) => WalError::WalEntryV1Error(WalEntryV1Error::RecordTooLarge(len)),
    }
}

/// The state of a queue's writer.
pub struct WalWriter {
    queue_id: QueueId,
    file_id: UintN,
    header: WalHeader,
    settings: WalSettings,
    has_written: bool,
    entry_index: u64,
    order: OrderedBuffer,
    pooled: bool,
    file_epoch: u64,
    abandoned: bool,
}

impl View for WalWriter {
    type V = WriterView;

    closed spec fn view(&self) -> WriterView {
        WriterView {
            queue: self.queue_id@,
            file_id: self.file_id@,
            header: self.header@,
            has_written: self.has_written,
            entry_index: self.entry_index as nat,
            order: self.order@,
            pooled: self.pooled,
            file_epoch: self.file_epoch as nat,
            abandoned: self.abandoned,
        }
    }
}

/// What to do about a file that a rotation needs and that cannot be opened.
#[derive(Debug, Clone, Copy, PartialEq, Eq, Structural)]
pub enum OpenStep {
    /// A close waits: stand the rotation down.
    Abandon,
    /// Try again, with `complain` after saying so.
    Retry { complain: bool },
}

/// Decides about the try number `attempt`, from zero, to open a file, which
/// failed.
pub fn open_failed(attempt: u32, closing: bool) -> (res: OpenStep)
    ensures
        res == (if closing {
            OpenStep::Abandon
        } else {
            OpenStep::Retry { complain: attempt % ROTATE_WARN_EVERY == 0 }
        }),
{
    if closing {
        OpenStep::Abandon
    } else {
        OpenStep::Retry { complain: attempt % ROTATE_WARN_EVERY == 0 }
    }
}

/// A pool gets a writer that drains it, and decides from here on where files
/// end. A header is charged at the widest it can be, since it may grow with a
/// rotation.
pub fn begin_draining(pool: &mut PagePool, settings: &WalSettings)
    requires
        old(pool).wf(),
    ensures
        final(pool).wf(),
        final(pool)@ == (PoolView { drainer: true, ..old(pool)@ }).armed(
            settings.max_file_size as u64,
            WAL_HEADER_V1_MAX_SIZE as u64,
        ),
{
    pool.set_drainer();
    pool.arm_file_fill(settings.max_file_size as u64, WAL_HEADER_V1_MAX_SIZE as u64);
}

/// The bytes that a file begins with.
pub fn file_header(header: &WalHeader) -> (res: Result<Bytes, WalError>)
    ensures
        match (res, wal_header_v1::converted(header@)) {
            (Ok(b), Ok(h)) => buf::bytes_of(b) == wal_header_v1::header_bytes(h),
            (Err(e), Err(v)) => e == WalError::AnyWalHeaderError(AnyWalHeaderError::V1(v)),
            _ => false,
        },
        res matches Ok(b) ==> forall|rest: Seq<u8>|
            (#[trigger] wal_header_v1::parse_any(buf::bytes_of(b) + rest)) matches Ok((v, n))
                && v.header == header@ && n == buf::bytes_of(b).len(),
{
    let h = match WalHeaderV1::from_v0(header) {
        Ok(h) => h,
        Err(e) => {
            return Err(WalError::from(e));
        },
    };
    let mut out = buf::empty_buffer();
    match h.write_to_bytes(&mut out) {
        Ok(_) => {
            let b = buf::buffer_freeze(out);
            assert(buf::bytes_of(b) =~= wal_header_v1::header_bytes(h));
            proof {
                assert forall|rest: Seq<u8>|
                    (#[trigger] wal_header_v1::parse_any(buf::bytes_of(b) + rest)) matches Ok(
                        (v, n),
                    ) && v.header == header@ && n == buf::bytes_of(b).len() by {
                    wal_header_v1::header_roundtrip(h, rest);
                }
            }
            Ok(b)
        },
        Err(e) => Err(WalError::from(e)),
    }
}

/// How a file of a queue with these settings is written.
pub fn file_settings(settings: &WalSettings) -> (res: AckFileWriterSettings)
    ensures
        res.max_buffer_size == settings.write_buffer_size,
        res.max_file_size == settings.max_file_size,
        res.write_interval == settings.write_interval,
        res.fsync == settings.enable_fsync,
{
    AckFileWriterSettings {
        max_buffer_size: settings.write_buffer_size,
        max_file_size: settings.max_file_size as u64,
        write_interval: settings.write_interval,
        fsync: settings.enable_fsync,
    }
}

impl WalWriter {
    pub closed spec fn spec_settings(&self) -> WalSettings {
        self.settings
    }

    /// A writer for a file of a queue whose last entry is `last_entry_id`.
    pub fn new(
        queue_id: QueueId,
        file_id: UintN,
        header: WalHeader,
        settings: WalSettings,
        last_entry_id: Option<UintN>,
        pooled: bool,
    ) -> (res: Self)
        ensures
            res@.wf(),
            res.spec_settings() == settings,
            res@ == (WriterView {
                queue: queue_id@,
                file_id: file_id@,
                header: header@,
                has_written: false,
                entry_index: 0,
                order: BufferView {
                    next: match last_entry_id {
                        Some(id) => id@ + 1,
                        None => 0,
                    },
                    pending: Seq::empty(),
                },
                pooled,
                file_epoch: 0,
                abandoned: false,
            }),
    {
        WalWriter {
            queue_id,
            file_id,
            header,
            settings,
            has_written: false,
            entry_index: 0,
            order: OrderedBuffer::new(last_entry_id),
            pooled,
            file_epoch: 0,
            abandoned: false,
        }
    }

    /// An entry as it is handed to the writer.
    pub fn enqueue(entry_id: UintN, data: Bytes, placement: Placement) -> (res: (
        UintN,
        Bytes,
        Placement,
    ))
        ensures
            writer_buffer::entry_view(res) == stripped(
                writer_buffer::entry_view((entry_id, data, placement)),
            ),
    {
        let data = if placement.in_pool {
            buf::empty_bytes()
        } else {
            data
        };
        (entry_id, data, placement)
    }

    /// Entries as they are handed to the writer.
    pub fn enqueue_batch(entries: Vec<(UintN, Bytes, Placement)>) -> (res: Vec<
        (UintN, Bytes, Placement),
    >)
        ensures
            res@.len() == entries@.len(),
            forall|i: int|
                0 <= i < res@.len() ==> writer_buffer::entry_view(#[trigger] res@[i]) == stripped(
                    writer_buffer::entry_view(entries@[i]),
                ),
    {
        let ghost all = entries@;
        let mut res = entries;
        let mut i: usize = 0;
        while i < res.len()
            invariant
                i <= res@.len(),
                res@.len() == all.len(),
                forall|j: int|
                    0 <= j < i ==> writer_buffer::entry_view(#[trigger] res@[j]) == stripped(
                        writer_buffer::entry_view(all[j]),
                    ),
                forall|j: int| i <= j < res@.len() ==> #[trigger] res@[j] == all[j],
            decreases res@.len() - i,
        {
            if res[i].2.in_pool {
                let id = res[i].0.clone();
                let placement = res[i].2;
                res.set(i, (id, buf::empty_bytes(), placement));
            }
            i = i + 1;
        }
        res
    }

    /// An entry arrives. The entries that are ready with it go on, in id
    /// order. Without a file it is dropped, and said to be.
    pub fn accept(&mut self, entry: (UintN, Bytes, Placement)) -> (res: Result<
        Vec<(UintN, Bytes, Placement)>,
        WalError,
    >)
        requires
            old(self)@.wf(),
        ensures
            final(self)@.wf(),
            final(self).spec_settings() == old(self).spec_settings(),
            match res {
                Err(e) => {
                    &&& old(self)@.abandoned
                    &&& is_run_error(e, RunError::Abandoned)
                    &&& final(self)@ == old(self)@
                },
                Ok(ready) => {
                    let (order, es) = old(self)@.order.arrive(writer_buffer::entry_view(entry));
                    &&& !old(self)@.abandoned
                    &&& writer_buffer::entry_views(ready@) == es
                    &&& final(self)@ == (WriterView { order, ..old(self)@ })
                },
            },
    {
        if self.abandoned {
            return Err(run_error(RunError::Abandoned));
        }
        let ghost before = self@.order;
        let ghost e = writer_buffer::entry_view(entry);
        if self.order.can_write(&entry.0) {
            let mut ready: Vec<(UintN, Bytes, Placement)> = Vec::new();
            ready.push(entry);
            proof {
                writer_buffer::lemma_direct(before, e);
                assert(writer_buffer::entry_views(ready@) =~= seq![e]);
            }
            Ok(ready)
        } else {
            Ok(self.order.wait_for_order(entry))
        }
    }

    /// The ids of the entries that wait for an earlier one. At a close they
    /// reach no file.
    pub fn pending_ids(&self) -> (ids: Vec<UintN>)
        ensures
            ids@.len() == self@.order.pending.len(),
            forall|i: int|
                0 <= i < ids@.len() ==> (#[trigger] ids@[i])@ == self@.order.pending[i].id,
    {
        self.order.pending_ids()
    }

    /// Whether what was decided about a record fits the file that the writer
    /// is on. If not, the file's entry ids may not line up with its header.
    pub fn check_epoch(&self, placement: &Placement) -> (res: bool)
        ensures
            res == self@.agrees(*placement),
    {
        match placement.rotate {
            RotateHint::WriterDecides => true,
            RotateHint::Before => self.file_epoch < u64::MAX && placement.epoch == self.file_epoch
                + 1,
            RotateHint::NoRotation => placement.epoch == self.file_epoch,
        }
    }

    /// Moves on to the next file, which begins with this entry. The file before
    /// is reported complete if its closing flush wrote all that it was owed; if
    /// not, it stays where recovery and reads see what survived.
    pub fn rotate(&mut self, next_entry_id: &UintN, next_data_size: usize, closed_ok: bool) -> (res:
        Option<WalFile>)
        requires
            old(self)@.wf(),
            old(self)@.file_epoch < u64::MAX,
        ensures
            final(self)@.wf(),
            final(self).spec_settings() == old(self).spec_settings(),
            final(self)@ == old(self)@.rotated(next_entry_id@, next_data_size as nat),
            closed_ok == (res is Some),
            res matches Some(f) ==> f@ == (WalFileView {
                queue: old(self)@.queue,
                file_id: old(self)@.file_id,
                encryption_type: old(self).spec_settings().encryption_type,
                compression_type: old(self).spec_settings().compression_type,
            }),
    {
        let complete = if closed_ok {
            Some(
                WalFile {
                    queue_id: self.queue_id.clone(),
                    file_id: self.file_id.clone(),
                    encryption_type: self.settings.encryption_type,
                    compression_type: self.settings.compression_type,
                },
            )
        } else {
            None
        };
        self.file_id = self.file_id.increment();
        let mut header = self.header.resize(next_entry_id, next_data_size);
        header.num_entries_before = next_entry_id.clone();
        self.header = header;
        self.has_written = false;
        self.entry_index = 0;
        self.file_epoch = self.file_epoch + 1;
        complete
    }

    /// A close stood the rotation down: the writer has no file any more.
    pub fn abandon(&mut self)
        requires
            old(self)@.wf(),
        ensures
            final(self)@.wf(),
            final(self).spec_settings() == old(self).spec_settings(),
            final(self)@ == (WriterView { abandoned: true, ..old(self)@ }),
    {
        self.abandoned = true;
    }

    /// The file that the writer is on.
    pub fn file_id(&self) -> (res: &UintN)
        ensures
            res@ == self@.file_id,
    {
        &self.file_id
    }

    /// The header of that file.
    pub fn header(&self) -> (res: &WalHeader)
        ensures
            res@ == self@.header,
    {
        &self.header
    }

    /// Which file it is, counted from zero.
    pub fn file_epoch(&self) -> (res: u64)
        ensures
            res == self@.file_epoch,
    {
        self.file_epoch
    }

    pub fn settings(&self) -> (res: &WalSettings)
        ensures
            *res == self.spec_settings(),
    {
        &self.settings
    }
}

// ---------------------------------------------------------------------------
// Entries on their way into files.

/// What has to happen next with a run of entries.
#[derive(Debug, PartialEq, Eq)]
pub enum RunStep {
    /// An entry was handed to the file; with `full`, the file's buffer is
    /// full.
    Handed { full: bool },
    /// A new file has to begin, with an entry of this id and record length.
    Rotate { next_entry_id: UintN, next_data_size: usize },
    /// Nothing is left to do.
    Finished,
}

pub struct RunView {
    /// The entries that are left.
    pub entries: Seq<EntryView>,
    /// Whether the first of them has got the file it needed.
    pub rotated: bool,
    /// The highest id that was handed over.
    pub mark: Option<u64>,
    pub error: Option<RunError>,
}

/// A mark raised to an id, as far as the id can be a mark.
pub open spec fn marked(mark: Option<u64>, id: nat) -> Option<u64> {
    if id <= u64::MAX {
        wal_ring_v1::raised(mark, id as u64)
    } else {
        mark
    }
}

/// Whether an entry, framed, can be buffered: an allocation and a counter have
/// their limits.
pub open spec fn has_room(file: TailView, e: EntryView) -> bool {
    let len = e.data.len() + wal_entry_v1::WAL_ENTRY_V1_MAX_OVERHEAD;
    &&& file.flight().len() + file.buffer.len() + len <= isize::MAX
    &&& file.current_size + len <= u64::MAX
    &&& file.acks.len() < usize::MAX
}

/// What the next entry comes to.
pub enum Feed {
    Finished,
    Failed(RunError),
    Rotate,
    Handed,
}

impl RunView {
    /// What comes next.
    pub open spec fn feed(self, w: WriterView, file: TailView, max_file_size: u64) -> Feed {
        if self.error is Some || self.entries.len() == 0 {
            Feed::Finished
        } else {
            let e = self.entries[0];
            if record_len(e) > u32::MAX {
                Feed::Failed(RunError::TooLarge(record_len(e) as usize))
            } else if !self.rotated && w.rotates(file, max_file_size, e) {
                Feed::Rotate
            } else if !w.on_page(e) && e.data.len() > u32::MAX {
                Feed::Failed(RunError::TooLarge(e.data.len() as usize))
            } else {
                Feed::Handed
            }
        }
    }

    /// The run once its first entry was handed over.
    pub open spec fn handed(self) -> RunView {
        RunView {
            entries: self.entries.skip(1),
            rotated: false,
            mark: marked(self.mark, self.entries[0].id),
            ..self
        }
    }
}

/// A run of entries on its way into files.
pub struct EntryRun {
    entries: Vec<(UintN, Bytes, Placement)>,
    at: usize,
    rotated: bool,
    mark: Option<u64>,
    error: Option<RunError>,
}

impl View for EntryRun {
    type V = RunView;

    closed spec fn view(&self) -> RunView {
        RunView {
            entries: writer_buffer::entry_views(self.entries@).skip(self.at as int),
            rotated: self.rotated,
            mark: self.mark,
            error: self.error,
        }
    }
}

impl EntryRun {
    pub closed spec fn wf(&self) -> bool {
        self.at <= self.entries@.len()
    }

    /// A run of these entries.
    pub fn new(entries: Vec<(UintN, Bytes, Placement)>) -> (res: Self)
        ensures
            res.wf(),
            res@ == (RunView {
                entries: writer_buffer::entry_views(entries@),
                rotated: false,
                mark: None,
                error: None,
            }),
    {
        let res = EntryRun { entries, at: 0, rotated: false, mark: None, error: None };
        assert(res@.entries =~= writer_buffer::entry_views(entries@));
        res
    }

    /// Does what comes next with the first entry that is left. An entry that
    /// cannot be written ends the run; what was handed over before it stays
    /// handed over.
    pub fn step(&mut self, writer: &mut WalWriter, file: &mut AckFileWriter) -> (res: RunStep)
        requires
            old(self).wf(),
            old(writer)@.wf(),
            old(file)@.wf(),
            old(file)@.pooled == old(writer)@.pooled,
            old(writer)@.entry_index < u64::MAX,
            old(self)@.entries.len() > 0 ==> has_room(old(file)@, old(self)@.entries[0]),
        ensures
            final(self).wf(),
            final(writer)@.wf(),
            final(file)@.wf(),
            final(writer).spec_settings() == old(writer).spec_settings(),
            final(file).spec_settings() == old(file).spec_settings(),
            match old(self)@.feed(old(writer)@, old(file)@, old(file).spec_settings().max_file_size) {
                Feed::Finished => {
                    &&& res == RunStep::Finished
                    &&& final(self)@ == old(self)@
                    &&& final(writer)@ == old(writer)@
                    &&& final(file)@ == old(file)@
                },
                Feed::Failed(e) => {
                    &&& res == RunStep::Finished
                    &&& final(self)@ == (RunView { error: Some(e), ..old(self)@ })
                    &&& final(writer)@ == old(writer)@
                    &&& final(file)@ == old(file)@
                },
                Feed::Rotate => {
                    &&& res matches RunStep::Rotate { next_entry_id, next_data_size }
                    &&& next_entry_id@ == old(self)@.entries[0].id
                    &&& next_data_size == record_len(old(self)@.entries[0])
                    &&& final(self)@ == old(self)@
                    &&& final(writer)@ == old(writer)@
                    &&& final(file)@ == old(file)@
                },
                Feed::Handed => {
                    let e = old(self)@.entries[0];
                    &&& res == (RunStep::Handed {
                        full: final(file)@.buffer.len()
                            >= old(file).spec_settings().max_buffer_size,
                    })
                    &&& final(self)@ == old(self)@.handed()
                    &&& final(writer)@ == old(writer)@.counted()
                    &&& final(file)@ == old(file)@.took(
                        old(writer)@.queue,
                        e.id,
                        old(writer)@.framed(e),
                        e.placement.in_pool,
                    )
                },
            },
    {
        let ghost run = self@;
        let ghost w = writer@;
        if self.error.is_some() || self.at >= self.entries.len() {
            return RunStep::Finished;
        }
        let entry = &self.entries[self.at];
        let ghost e = run.entries[0];
        assert(e == writer_buffer::entry_view(*entry));
        let placement = entry.2;
        let data = buf::bytes_slice(&entry.1);
        let data_len: usize = if placement.in_pool {
            placement.record_len
        } else {
            data.len()
        };
        let size: u64 = match page_pool::encoded_len_of(data_len) {
            Some(n) => n,
            None => {
                self.error = Some(RunError::TooLarge(data_len));
                return RunStep::Finished;
            },
        };
        let must_rotate = match placement.rotate {
            RotateHint::WriterDecides => writer.has_written && !file.can_hold(size),
            RotateHint::Before => true,
            RotateHint::NoRotation => false,
        };
        if !self.rotated && must_rotate {
            return RunStep::Rotate { next_entry_id: entry.0.clone(), next_data_size: data_len };
        }
        let frame: Bytes = if writer.pooled && placement.in_pool {
            buf::empty_bytes()
        } else {
            let mut out = buf::empty_buffer();
            match WalEntryV1::new(data).write_to_bytes(&mut out) {
                Ok(_) => {
                    let b = buf::buffer_freeze(out);
                    assert(buf::bytes_of(b) =~= wal_entry_v1::entry(e.data));
                    b
                },
                Err(_) => {
                    self.error = Some(RunError::TooLarge(data.len()));
                    return RunStep::Finished;
                },
            }
        };
        proof {
            if !w.on_page(e) {
                wal_entry_v1::lemma_entry_len(e.data);
            }
        }
        let full = file.write_maybe_pooled(
            writer.queue_id.clone(),
            entry.0.clone(),
            &frame,
            placement.in_pool,
        );
        let mark = match entry.0.to_u64() {
            Ok(id) => match self.mark {
                Some(m) => if m < id {
                    Some(id)
                } else {
                    Some(m)
                },
                None => Some(id),
            },
            Err(_) => self.mark,
        };
        self.mark = mark;
        self.at = self.at + 1;
        self.rotated = false;
        writer.has_written = true;
        writer.entry_index = writer.entry_index + 1;
        assert(self@.entries =~= run.entries.skip(1));
        RunStep::Handed { full }
    }

    /// Whether the next entry can be handed over: an allocation and a counter
    /// have their limits.
    pub fn can_step(&self, writer: &WalWriter, file: &AckFileWriter) -> (res: bool)
        requires
            self.wf(),
            file@.wf(),
        ensures
            res == (writer@.entry_index < u64::MAX && (self@.entries.len() > 0 ==> has_room(
                file@,
                self@.entries[0],
            ))),
    {
        if writer.entry_index == u64::MAX {
            return false;
        }
        if self.at >= self.entries.len() {
            return true;
        }
        assert(self@.entries[0] == writer_buffer::entry_view(self.entries@[self.at as int]));
        let len: usize = buf::bytes_slice(&self.entries[self.at].1).len();
        len <= usize::MAX - wal_entry_v1::WAL_ENTRY_V1_MAX_OVERHEAD && file.has_room(
            len + wal_entry_v1::WAL_ENTRY_V1_MAX_OVERHEAD,
        )
    }

    /// The file that the first entry needs has begun.
    pub fn rotated(&mut self)
        requires
            old(self).wf(),
        ensures
            final(self).wf(),
            final(self)@ == (RunView { rotated: true, ..old(self)@ }),
    {
        self.rotated = true;
    }

    /// The file that the first entry needs will not begin: a close stood the
    /// rotation down.
    pub fn abandoned(&mut self)
        requires
            old(self).wf(),
        ensures
            final(self).wf(),
            final(self)@ == (RunView {
                error: Some(RunError::Abandoned),
                ..old(self)@
            }),
    {
        self.error = Some(RunError::Abandoned);
    }

    /// The highest id that was handed over. The pool is told of it whatever
    /// the run came to: a record that was handed over and that the pool does
    /// not know of would never leave its page.
    pub fn handed_through(&self) -> (res: Option<u64>)
        ensures
            res == self@.mark,
    {
        self.mark
    }

    /// What the run came to.
    pub fn outcome(self) -> (res: Result<(), WalError>)
        ensures
            match (res, self@.error) {
                (Err(e), Some(v)) => is_run_error(e, v),
                (Ok(_), None) => true,
                _ => false,
            },
    {
        match self.error {
            Some(e) => Err(run_error(e)),
            None => Ok(()),
        }
    }
}

// ---------------------------------------------------------------------------
// What always holds.

/// Whether the entries of a run have the ids that a reader derives for them:
/// those that follow on the entries of the file.
pub open spec fn positional(r: RunView, w: WriterView) -> bool {
    forall|i: int|
        0 <= i < r.entries.len() ==> (#[trigger] r.entries[i]).id == w.header.num_entries_before
            + w.entry_index + i
}

/// Whether the next entry in order is the next of the file.
pub open spec fn in_step(w: WriterView) -> bool {
    w.header.num_entries_before + w.entry_index == w.order.next
}

/// Entries become ready with the ids that a reader derives for them, and once
/// they are all in the file, the next in order is again the next of the file.
pub proof fn ready_entries_are_positional(w: WriterView, e: EntryView)
    requires
        w.wf(),
        in_step(w),
    ensures
        ({
            let (order, ready) = w.order.arrive(e);
            let r = RunView { entries: ready, rotated: false, mark: None, error: None };
            &&& positional(r, WriterView { order, ..w })
            &&& order.next == w.header.num_entries_before + w.entry_index + ready.len()
        }),
{
    writer_buffer::lemma_release(
        BufferView { pending: w.order.pending.push(e), ..w.order },
    );
}

/// An entry that is handed over has the id that a reader derives for it, in
/// the file that is open or in one that begins with it, and the entries behind
/// it have theirs.
pub proof fn ids_stay_positional(r: RunView, w: WriterView, next_data_size: nat)
    requires
        positional(r, w),
        r.entries.len() > 0,
    ensures
        r.entries[0].id == w.header.num_entries_before + w.entry_index,
        positional(r.handed(), w.counted()),
        positional(r, w.rotated(r.entries[0].id, next_data_size)),
{
    assert forall|i: int| 0 <= i < r.handed().entries.len() implies (
    #[trigger] r.handed().entries[i]).id == w.counted().header.num_entries_before
        + w.counted().entry_index + i by {
        assert(r.handed().entries[i] == r.entries[i + 1]);
    }
}

/// Something that happens to a run of entries.
pub enum RunMove {
    /// What comes next is done, with the writer and the file as they are then.
    Step { writer: WriterView, file: TailView, max_file_size: u64 },
    /// The file that the next entry needs has begun.
    Rotated,
    /// It will not begin.
    Abandoned,
}

/// A run of entries on its way, and what was handed over of it.
pub struct RunCourse {
    pub run: RunView,
    pub handed: Seq<EntryView>,
}

/// A run that begins.
pub open spec fn begun(entries: Seq<EntryView>) -> RunCourse {
    RunCourse {
        run: RunView { entries, rotated: false, mark: None, error: None },
        handed: Seq::empty(),
    }
}

pub open spec fn moved(c: RunCourse, m: RunMove) -> RunCourse {
    match m {
        RunMove::Step { writer, file, max_file_size } => match c.run.feed(
            writer,
            file,
            max_file_size,
        ) {
            Feed::Handed => RunCourse {
                run: c.run.handed(),
                handed: c.handed.push(c.run.entries[0]),
            },
            Feed::Failed(e) => RunCourse { run: RunView { error: Some(e), ..c.run }, ..c },
            _ => c,
        },
        RunMove::Rotated => RunCourse { run: RunView { rotated: true, ..c.run }, ..c },
        RunMove::Abandoned => RunCourse {
            run: RunView { error: Some(RunError::Abandoned), ..c.run },
            ..c
        },
    }
}

/// A run after what happened to it.
pub open spec fn run_course(entries: Seq<EntryView>, moves: Seq<RunMove>) -> RunCourse
    decreases moves.len(),
{
    if moves.len() == 0 {
        begun(entries)
    } else {
        moved(run_course(entries, moves.drop_last()), moves.last())
    }
}

/// Whether an entry is too large for a writer, with or without a pool.
pub open spec fn too_large(e: EntryView, pooled: bool) -> bool {
    ||| record_len(e) > u32::MAX
    ||| !(pooled && e.placement.in_pool) && e.data.len() > u32::MAX
}

/// Whether all steps are those of a writer with or without a pool.
pub open spec fn of_one_writer(moves: Seq<RunMove>, pooled: bool) -> bool {
    forall|i: int|
        0 <= i < moves.len() ==> ((#[trigger] moves[i]) matches RunMove::Step {
            writer,
            file,
            max_file_size,
        } ==> writer.pooled == pooled)
}

/// Whether ids increase from entry to entry, and can be marks.
pub open spec fn ids_ascend(entries: Seq<EntryView>) -> bool {
    &&& forall|i: int, j: int|
        0 <= i < j < entries.len() ==> (#[trigger] entries[i]).id < (#[trigger] entries[j]).id
    &&& forall|i: int| 0 <= i < entries.len() ==> (#[trigger] entries[i]).id <= u64::MAX
}

/// Whatever happens to a run, entries are handed over in order, from the first
/// on, and none that is too large. It ends with all of them handed over, or
/// before the first that is too large, or where a file that was needed did not
/// begin. The mark is the last id that was handed over, however it ended.
pub proof fn run_hands_over_in_order(
    entries: Seq<EntryView>,
    moves: Seq<RunMove>,
    pooled: bool,
)
    requires
        of_one_writer(moves, pooled),
        ids_ascend(entries),
    ensures
        ({
            let c = run_course(entries, moves);
            let n = c.handed.len();
            &&& n <= entries.len()
            &&& c.handed == entries.take(n as int)
            &&& c.run.entries == entries.skip(n as int)
            &&& forall|i: int| 0 <= i < n ==> !too_large(#[trigger] entries[i], pooled)
            &&& c.run.mark == (if n == 0 {
                None
            } else {
                Some(entries[n - 1].id as u64)
            })
            &&& match c.run.error {
                None => true,
                Some(RunError::Abandoned) => true,
                Some(RunError::TooLarge(_)) => n < entries.len() && too_large(
                    entries[n as int],
                    pooled,
                ),
            }
        }),
    decreases moves.len(),
{
    if moves.len() == 0 {
        assert(entries.take(0) =~= Seq::<EntryView>::empty());
        assert(entries.skip(0) =~= entries);
    } else {
        let rest = moves.drop_last();
        assert forall|i: int| 0 <= i < rest.len() implies ((#[trigger] rest[i]) matches RunMove::Step {
            writer,
            file,
            max_file_size,
        } ==> writer.pooled == pooled) by {
            assert(rest[i] == moves[i]);
        }
        run_hands_over_in_order(entries, rest, pooled);
        let c = run_course(entries, rest);
        let n = c.handed.len() as int;
        assert(moves[moves.len() - 1] == moves.last());
        if let RunMove::Step { writer, file, max_file_size } = moves.last() {
            if c.run.error is None && c.run.entries.len() > 0 {
                assert(c.run.entries[0] == entries[n]);
                assert(entries.take(n + 1) =~= entries.take(n).push(entries[n]));
                assert(entries.skip(n + 1) =~= entries.skip(n).skip(1));
                if n > 0 {
                    assert(entries[n - 1].id < entries[n].id);
                }
            }
        }
    }
}

/// A run in which nothing is left to do, and nothing went wrong, handed over
/// every entry.
pub proof fn finished_run_is_whole(
    entries: Seq<EntryView>,
    moves: Seq<RunMove>,
    pooled: bool,
    writer: WriterView,
    file: TailView,
    max_file_size: u64,
)
    requires
        of_one_writer(moves, pooled),
        ids_ascend(entries),
        run_course(entries, moves).run.feed(writer, file, max_file_size) is Finished,
        run_course(entries, moves).run.error is None,
    ensures
        run_course(entries, moves).handed == entries,
{
    run_hands_over_in_order(entries, moves, pooled);
    let c = run_course(entries, moves);
    assert(entries.skip(c.handed.len() as int).len() == 0);
    assert(entries.take(entries.len() as int) =~= entries);
}

/// The first entry of a file begins no other, however large it is, unless that
/// was decided where it was accepted.
pub proof fn first_entry_stays(w: WriterView, file: TailView, max_file_size: u64, e: EntryView)
    requires
        !w.has_written,
        e.placement.rotate == RotateHint::WriterDecides,
    ensures
        !w.rotates(file, max_file_size, e),
{
}

/// Where the writer decides, a file stays within its maximum, but for a file
/// whose only entry exceeds it.
pub proof fn file_stays_within_its_maximum(
    w: WriterView,
    file: TailView,
    max_file_size: u64,
    e: EntryView,
)
    requires
        e.placement.rotate == RotateHint::WriterDecides,
        !e.placement.in_pool,
        w.has_written,
        !w.rotates(file, max_file_size, e),
        file.pooled == w.pooled,
        e.data.len() <= u32::MAX,
    ensures
        file.took(w.queue, e.id, w.framed(e), e.placement.in_pool).current_size <= max_file_size,
{
    wal_entry_v1::lemma_entry_len(e.data);
}

/// Entries whose bytes are not on a page are in the file's stream one after
/// the other, each framed.
pub proof fn file_holds_what_was_handed(
    w: WriterView,
    file: TailView,
    records: Seq<Seq<u8>>,
    e: EntryView,
)
    requires
        file.pooled == w.pooled,
        file.handed == wal_file::packed(records),
        !w.on_page(e),
    ensures
        file.took(w.queue, e.id, w.framed(e), e.placement.in_pool).handed == wal_file::packed(
            records.push(e.data),
        ),
{
    wal_page::lemma_packed_push(records, e.data);
}

/// A file whose entries were all flushed reads back: every record under the id
/// that it was handed over with.
pub proof fn flushed_file_reads_back(
    w: WriterView,
    h: WalHeaderV1,
    file: TailView,
    records: Seq<Seq<u8>>,
)
    requires
        wal_header_v1::converted(w.header) == Ok::<WalHeaderV1, wal_header_v1::WalHeaderV1Error>(h),
        file.handed == wal_file::packed(records),
        file.written == file.handed.len(),
        wal_file::writable(records),
        w.header.num_entries_before + records.len() <= u64::MAX + 1,
    ensures
        ({
            let content = wal_header_v1::header_bytes(h) + file.handed.take(file.written as int);
            let n = wal_header_v1::header_bytes(h).len();
            &&& wal_header_v1::parse_any(content) == Ok::<(AnyHeaderView, nat), AnyWalHeaderError>(
                (wal_file::v1_view(h), n),
            )
            &&& reader::entries(content, wal_file::v1_view(h), n, 0) == wal_file::numbered(
                w.header.num_entries_before,
                records,
            )
        }),
{
    let nothing = Seq::<u8>::empty();
    wal_entry_v1::entry_prefix_is_truncated(nothing, 0);
    wal_entry_v1::lemma_entry_len(nothing);
    assert(wal_entry_v1::entry(nothing).take(0) =~= nothing);
    wal_file::written_file_reads_back(h, records, nothing);
    assert(wal_header_v1::header_bytes(h) + file.handed.take(file.written as int)
        =~= wal_file::file(h, records) + nothing);
}

/// Where the pool decides, it and the writer count the same files: what the
/// pool decides about a record fits the file that the writer is on, and once
/// the writer has done as decided, both are on the same file.
pub proof fn pool_and_writer_agree(v: PoolView, w: WriterView, record_len: nat, opened: bool)
    requires
        v.fill matches Some(f) && f.epoch == w.file_epoch && f.epoch < u64::MAX,
    ensures
        ({
            let (after, p) = v.charged(record_len, opened);
            &&& w.agrees(p)
            &&& after.fill is Some
            &&& p.rotate == RotateHint::Before ==> after.fill->0.epoch == w.file_epoch + 1
            &&& p.rotate != RotateHint::Before ==> after.fill->0.epoch == w.file_epoch
        }),
{
}

} // verus!
