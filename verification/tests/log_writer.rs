//! Writing a queue's log: ordering, files, flushes, and what is reported.

use bytes::{Bytes, BytesMut};
use normfs::ack_file_writer::{
    begin_pool_flush, AckFileWriter, AckFileWriterSettings, FlushStart, MAX_RETRIES,
};
use normfs::errors::WalError;
use normfs::flush_attempt::{FlushAction, FlushAttempt};
use normfs::page_pool::{max_record_len, PagePool, PlaceStep, Placement, RotateHint};
use normfs::reader::{
    get_wal_content, get_wal_range, read_wal_bytes_range, read_wal_file_range, ReadRangeResult,
};
use normfs::types::{CompressionType, DataSource, EncryptionType, QueueId, QueueIdResolver};
use normfs::uintn::UintN;
use normfs::wal_arena::WalArena;
use normfs::wal_entry::WalEntryHeader;
use normfs::wal_entry_v1::{WalEntryV1, WalEntryV1Error};
use normfs::wal_header::WalHeader;
use normfs::wal_ring_v1::AppendOutcome;
use normfs::wal_store::{WalFile, WalSettings};
use normfs::writer::{
    begin_draining, file_header, file_settings, open_failed, EntryRun, OpenStep, RunStep, WalWriter,
};
use normfs::writer_buffer::OrderedBuffer;
use std::collections::{HashMap, HashSet};
use std::time::Duration;

fn id(v: u64) -> UintN {
    UintN::from(v)
}

fn queue(name: &str) -> QueueId {
    QueueIdResolver::new("test_instance").resolve(name)
}

fn abandoned() -> WalError {
    WalError::IoError("the writer's rotation was abandoned by a close".to_string())
}

/// Puts runs into a file, as far as the operations succeed.
fn put<F: FnMut(FlushAction) -> bool>(
    content: &mut Vec<u8>,
    good_len: usize,
    runs: &[Bytes],
    fsync: bool,
    mut succeeds: F,
) -> bool {
    let mut attempt = FlushAttempt::new(runs.len(), fsync);
    loop {
        let action = attempt.action();
        match action {
            FlushAction::Done => return true,
            FlushAction::GaveUp => return false,
            FlushAction::Restore { .. } => {
                content.truncate(good_len);
                attempt.step(true);
            }
            FlushAction::Write(i) => {
                let ok = succeeds(action);
                // A write that fails may leave a part behind.
                let n = if ok { runs[i].len() } else { runs[i].len() / 2 };
                content.extend_from_slice(&runs[i][..n]);
                attempt.step(ok);
            }
            FlushAction::Flush | FlushAction::Sync => {
                let ok = succeeds(action);
                attempt.step(ok);
            }
        }
    }
}

/// A file writer and the file that it writes.
struct Tail {
    writer: AckFileWriter,
    content: Vec<u8>,
    acks: Vec<(QueueId, UintN)>,
}

impl Tail {
    fn new(settings: AckFileWriterSettings, header: &[u8], pooled: bool) -> Tail {
        Tail {
            writer: AckFileWriter::new(settings, header.len() as u64, pooled),
            content: header.to_vec(),
            acks: Vec::new(),
        }
    }

    fn flush_buffer<F: FnMut(FlushAction) -> bool>(&mut self, succeeds: F) -> bool {
        match self.writer.begin_flush() {
            FlushStart::Settled(ack) => {
                self.acks.extend(ack);
                true
            }
            FlushStart::Write(data) => {
                let good_len = self.writer.flushed_len() as usize;
                let fsync = self.writer.fsync();
                let wrote = put(&mut self.content, good_len, &[data], fsync, succeeds);
                let ack = self.writer.finish_flush(wrote);
                self.acks.extend(ack);
                wrote
            }
        }
    }

    fn flush(&mut self, pool: Option<&mut PagePool>, epoch: u64, works: bool) -> bool {
        let flushed = self.flush_buffer(|_| works);
        if !self.writer.pages_may_follow(flushed) {
            return flushed;
        }
        let pool = pool.expect("a pooled writer has a pool");
        let Some(pages) = begin_pool_flush(pool, epoch) else {
            return true;
        };
        let runs: Vec<Bytes> = pages.runs.iter().map(|(_, b)| b.clone()).collect();
        let good_len = self.writer.flushed_len() as usize;
        let fsync = self.writer.fsync();
        if !put(&mut self.content, good_len, &runs, fsync, |_| works) {
            return false;
        }
        let ack = self.writer.finish_pool_flush(pool, &pages);
        self.acks.extend(ack);
        true
    }
}

fn tail_settings(max_buffer_size: usize) -> AckFileWriterSettings {
    AckFileWriterSettings {
        max_buffer_size,
        max_file_size: 10 * 1024,
        write_interval: Duration::from_millis(10),
        fsync: true,
    }
}

#[test]
fn default_settings_of_a_file() {
    let s = AckFileWriterSettings::default();
    assert_eq!(s.max_buffer_size, 134_217_728);
    assert_eq!(s.max_file_size, 134_217_728);
    assert_eq!(s.write_interval, Duration::from_millis(20));
    assert!(s.fsync);
}

#[test]
fn test_write_single_entry_and_ack() {
    let mut tail = Tail::new(tail_settings(1024), b"", false);
    let data = Bytes::from("hello world");
    tail.writer.write(queue("queue_1"), id(1), &data);
    assert!(tail.flush(None, 0, true));
    assert_eq!(tail.content, data);
    assert_eq!(tail.acks, vec![(queue("queue_1"), id(1))]);
}

#[test]
fn test_write_multiple_entries_and_ack() {
    let mut tail = Tail::new(tail_settings(1024), b"", false);
    tail.writer
        .write(queue("queue_1"), id(1), &Bytes::from("entry 1"));
    tail.writer
        .write(queue("queue_2"), id(10), &Bytes::from("entry 2"));
    assert!(tail.flush(None, 0, true));
    assert_eq!(tail.content, b"entry 1entry 2");
    assert_eq!(tail.acks, vec![(queue("queue_2"), id(10))]);
}

#[test]
fn test_buffer_full_triggers_write_and_ack() {
    let mut tail = Tail::new(tail_settings(20), b"", false);
    assert!(!tail
        .writer
        .write(queue("queue_1"), id(1), &Bytes::from("1234567890")));
    assert!(tail
        .writer
        .write(queue("queue_2"), id(2), &Bytes::from("abcdefghij")));
    assert!(tail.flush(None, 0, true));
    assert_eq!(tail.content, b"1234567890abcdefghij");
    assert_eq!(tail.acks, vec![(queue("queue_2"), id(2))]);

    tail.writer
        .write(queue("queue_3"), id(3), &Bytes::from("last_one"));
    assert!(tail.flush(None, 0, true));
    assert_eq!(tail.content, b"1234567890abcdefghijlast_one");
    assert_eq!(tail.acks[1], (queue("queue_3"), id(3)));
}

#[test]
fn test_writer_with_header() {
    let header = b"test header";
    let mut tail = Tail::new(tail_settings(1024), header, false);
    tail.writer
        .write(queue("test_queue"), id(1), &Bytes::from_static(b"test data"));
    assert!(tail.flush(None, 0, true));
    assert_eq!(&tail.content[..header.len()], header);
    assert_eq!(&tail.content[header.len()..], b"test data");
    assert_eq!(tail.acks, vec![(queue("test_queue"), id(1))]);
}

#[test]
fn a_file_has_room_up_to_its_maximum() {
    let mut tail = Tail::new(tail_settings(1024), b"HDR!", false);
    assert!(tail.writer.can_add(10 * 1024 - 4));
    assert!(!tail.writer.can_add(10 * 1024 - 3));
    tail.writer.write(queue("q"), id(0), &Bytes::from("12345"));
    assert!(tail.writer.can_add(10 * 1024 - 9));
    assert!(!tail.writer.can_add(10 * 1024 - 8));
}

#[test]
fn pages_reach_the_file_before_the_watermark_moves() {
    let mut pool = PagePool::new(4, 4096, 0);
    let header = b"HDR!";
    let mut tail = Tail::new(tail_settings(1024), header, true);
    assert_eq!(pool.durable_before(), 0);

    let record = b"a paged record";
    for _ in 0..3 {
        assert!(matches!(pool.try_append(record), AppendOutcome::Cached(_)));
    }
    let appended_through = pool.next_entry_id();
    for i in 0..appended_through {
        tail.writer
            .write_maybe_pooled(queue("paged"), id(i), &Bytes::new(), true);
    }
    pool.note_handed_over(appended_through - 1);

    // A flush that fails moves nothing.
    assert!(!tail.flush(Some(&mut pool), 0, false));
    assert_eq!(pool.durable_before(), 0);
    assert_eq!(tail.content, header);

    assert!(tail.flush(Some(&mut pool), 0, true));
    assert_eq!(pool.durable_before(), appended_through);
    assert!(tail.content.starts_with(header));
    let occurrences = tail
        .content
        .windows(record.len())
        .filter(|w| *w == record)
        .count();
    assert_eq!(occurrences, 3);
    assert_eq!(tail.acks, vec![(queue("paged"), id(2))]);
}

fn place(pool: &mut PagePool, entry_id: u64, record: &[u8]) -> Placement {
    match pool.place(entry_id, record, true) {
        PlaceStep::Placed { placement, .. } => placement,
        other => panic!("entry {entry_id} was not placed: {other:?}"),
    }
}

#[test]
fn a_record_in_flight_is_not_overtaken_by_the_pages_behind_it() {
    let mut pool = PagePool::new(4, 4096, 0);
    pool.set_drainer();
    pool.arm_file_fill(10 * 1024 * 1024, 4);
    let mut tail = Tail::new(tail_settings(1024 * 1024), b"HDR!", true);

    let first = b"AAAA-entry-zero".as_slice();
    let second = vec![b'B'; max_record_len(4096)];
    let third = b"CCCC-entry-two".as_slice();

    place(&mut pool, 0, first);
    tail.writer
        .write_maybe_pooled(queue("order"), id(0), &Bytes::new(), true);
    pool.note_handed_over(0);
    assert!(tail.flush(Some(&mut pool), 0, true));
    assert_eq!(pool.durable_before(), 1);

    place(&mut pool, 1, &second);
    place(&mut pool, 2, third);
    assert!(tail.flush(Some(&mut pool), 0, true));
    assert_eq!(
        pool.durable_before(),
        1,
        "a flush wrote entries the writer was never handed"
    );

    for i in 1..3 {
        tail.writer
            .write_maybe_pooled(queue("order"), id(i), &Bytes::new(), true);
    }
    pool.note_handed_over(2);
    assert!(tail.flush(Some(&mut pool), 0, true));
    assert_eq!(pool.durable_before(), 3);

    let at = |needle: &[u8]| {
        tail.content
            .windows(needle.len())
            .position(|w| w == needle)
            .expect("a record is missing from the file")
    };
    assert!(at(first) < at(&second) && at(&second) < at(third));
}

#[test]
fn a_restore_cuts_back_to_the_known_good_length() {
    let mut content = b"GOOD".to_vec();
    let mut attempt = FlushAttempt::new(1, false);

    // A torn attempt: bytes reach the file, but the batch fails part-way.
    assert_eq!(attempt.action(), FlushAction::Write(0));
    content.extend_from_slice(b"TORN-PREFIX");
    attempt.step(true);
    assert_eq!(attempt.action(), FlushAction::Flush);
    attempt.step(false);
    assert_eq!(attempt.action(), FlushAction::Restore { retry: true });
    content.truncate(4);
    attempt.step(true);

    assert_eq!(attempt.action(), FlushAction::Write(0));
    content.extend_from_slice(b"RETRY");
    attempt.step(true);
    assert_eq!(attempt.action(), FlushAction::Flush);
    attempt.step(true);
    assert_eq!(attempt.action(), FlushAction::Done);
    assert_eq!(
        content, b"GOODRETRY",
        "the retry must start at the known-good length, with the torn prefix gone"
    );
}

#[test]
fn a_failed_sync_is_tried_again() {
    let mut content = b"GOOD".to_vec();
    let mut failures = 1;
    let wrote = put(&mut content, 4, &[Bytes::from("RETRY")], true, |action| {
        if action == FlushAction::Sync && failures > 0 {
            failures -= 1;
            return false;
        }
        true
    });
    assert!(wrote);
    assert_eq!(content, b"GOODRETRY");
}

#[test]
fn a_write_is_given_up_after_its_last_try() {
    let mut content = b"GOOD".to_vec();
    let mut writes = 0;
    let wrote = put(&mut content, 4, &[Bytes::from("TORN-WRITE")], true, |_| {
        writes += 1;
        false
    });
    assert!(!wrote);
    assert_eq!(writes, MAX_RETRIES);
    assert_eq!(content, b"GOOD");
}

#[test]
fn a_flush_goes_in_order_and_syncs_only_if_asked() {
    let mut attempt = FlushAttempt::new(2, false);
    assert_eq!(attempt.action(), FlushAction::Write(0));
    attempt.step(true);
    assert_eq!(attempt.action(), FlushAction::Write(1));
    attempt.step(true);
    assert_eq!(attempt.action(), FlushAction::Flush);
    attempt.step(false);
    assert_eq!(attempt.action(), FlushAction::Restore { retry: true });
    attempt.step(true);
    assert_eq!(attempt.action(), FlushAction::Write(0));
    attempt.step(true);
    attempt.step(true);
    attempt.step(true);
    assert_eq!(attempt.action(), FlushAction::Done);

    let mut synced = FlushAttempt::new(0, true);
    assert_eq!(synced.action(), FlushAction::Flush);
    synced.step(true);
    assert_eq!(synced.action(), FlushAction::Sync);
    synced.step(true);
    assert_eq!(synced.action(), FlushAction::Done);
}

#[test]
fn a_buffered_ack_does_not_report_a_pooled_record_durable() {
    let mut pool = PagePool::new(4, 4096, 0);
    pool.set_drainer();
    pool.arm_file_fill(10 * 1024 * 1024, 4);
    let mut tail = Tail::new(tail_settings(1024 * 1024), b"HDR!", true);

    // Entry 0 is on a page and not handed over, entry 1 is buffered.
    place(&mut pool, 0, b"pooled-entry-zero");
    tail.writer
        .write_maybe_pooled(queue("mixed"), id(0), &Bytes::new(), true);
    tail.writer.write_maybe_pooled(
        queue("mixed"),
        id(1),
        &Bytes::from_static(b"buffered-entry-one"),
        false,
    );

    assert!(tail.flush(Some(&mut pool), 0, true));
    assert_eq!(pool.durable_before(), 0);
    assert!(tail
        .content
        .windows(18)
        .any(|w| w == b"buffered-entry-one"));
    assert!(tail.acks.is_empty());

    pool.note_handed_over(0);
    assert!(tail.flush(Some(&mut pool), 0, true));
    assert_eq!(pool.durable_before(), 1);
    assert!(tail.flush(Some(&mut pool), 0, true));
    assert_eq!(tail.acks.last(), Some(&(queue("mixed"), id(1))));
}

#[test]
fn an_entry_buffered_during_a_flush_is_not_acked_by_it() {
    let settings = AckFileWriterSettings {
        max_buffer_size: 1,
        max_file_size: 10 * 1024 * 1024,
        write_interval: Duration::from_secs(3600),
        fsync: true,
    };
    const ENTRIES: u64 = 20;
    let payload = |i: u64| format!("entry-{i:03}-payload");
    let mut writer = AckFileWriter::new(settings, 4, false);
    let mut content = b"HDR!".to_vec();
    let mut highest = None;

    assert!(writer.write_maybe_pooled(queue("during"), id(0), &Bytes::from(payload(0)), false));
    for i in 0..ENTRIES {
        let FlushStart::Write(data) = writer.begin_flush() else {
            panic!("bytes are owed");
        };
        content.extend_from_slice(&data);
        // The next entry arrives while the flush has written but not reported.
        if i + 1 < ENTRIES {
            let body = Bytes::from(payload(i + 1));
            assert!(writer.write_maybe_pooled(queue("during"), id(i + 1), &body, false));
        }
        let (_, acked) = writer.finish_flush(true).expect("the entry is reported");
        let acked = acked.to_u64().unwrap();
        let pat = payload(acked);
        assert!(
            content.windows(pat.len()).any(|w| w == pat.as_bytes()),
            "entry {acked} was acked while its bytes were still in the buffer"
        );
        assert_eq!(acked, i);
        highest = Some(acked);
    }
    assert_eq!(
        highest,
        Some(ENTRIES - 1),
        "the closing flush reports the last entry once its bytes are down"
    );
    assert_eq!(writer.flushed_len(), content.len() as u64);
}

#[test]
fn a_durable_buffered_ack_is_sent_without_another_write_or_a_close() {
    let mut pool = PagePool::new(4, 4096, 0);
    pool.set_drainer();
    pool.arm_file_fill(10 * 1024 * 1024, 4);
    let mut tail = Tail::new(tail_settings(1024 * 1024), b"HDR!", true);

    place(&mut pool, 0, b"pooled-entry-zero");
    tail.writer
        .write_maybe_pooled(queue("stranded"), id(0), &Bytes::new(), true);
    tail.writer.write_maybe_pooled(
        queue("stranded"),
        id(1),
        &Bytes::from_static(b"buffered-entry-one"),
        false,
    );
    pool.note_handed_over(0);
    assert!(tail.flush(Some(&mut pool), 0, true));
    assert_eq!(tail.acks, vec![(queue("stranded"), id(0))]);

    // The report of entry 1 is reason enough for the next flush.
    assert!(tail.writer.has_pending(pool.has_pending()));
    assert!(tail.flush(Some(&mut pool), 0, true));
    assert_eq!(tail.acks[1], (queue("stranded"), id(1)));
    assert!(!tail.writer.has_pending(pool.has_pending()));
}

#[test]
fn a_close_that_cannot_flush_says_so() {
    let settings = AckFileWriterSettings {
        max_buffer_size: 1024 * 1024,
        max_file_size: 10 * 1024 * 1024,
        write_interval: Duration::from_secs(3600),
        fsync: false,
    };
    let mut tail = Tail::new(settings, b"", false);
    tail.writer
        .write_maybe_pooled(queue("full"), id(0), &Bytes::from_static(b"doomed"), false);
    let clean = tail.flush(None, 0, false);
    assert!(
        tail.writer.close(clean).is_err(),
        "the closing flush lost this entry's bytes, and close() must say so"
    );
    assert_eq!(
        tail.writer.close(clean),
        Err(WalError::IoError(
            "the closing flush could not write everything owed to the file".to_string()
        ))
    );
    assert!(tail.acks.is_empty());

    // The bytes are still owed, before any that follow.
    tail.writer
        .write(queue("full"), id(1), &Bytes::from_static(b"later"));
    let clean = tail.flush(None, 0, true);
    assert_eq!(tail.writer.close(clean), Ok(()));
    assert_eq!(tail.content, b"doomedlater");
    assert_eq!(tail.acks, vec![(queue("full"), id(1))]);
}

#[test]
fn a_pool_of_an_arena_gives_pages_back_once_they_are_durable() {
    let mut arena = WalArena::new(4, 64);
    let range = arena.reserve(7, "events", 1).expect("there is room");
    let mut pool = PagePool::new_in(&arena, range, 7, 0, 1);
    while pool.page_count() < 3 {
        assert!(pool.try_grow(&mut arena));
    }
    let mut tail = Tail::new(tail_settings(1024), b"", true);
    for i in 0..2u64 {
        assert!(matches!(
            pool.try_append(&[9u8; 50]),
            AppendOutcome::Cached(_)
        ));
        tail.writer
            .write_maybe_pooled(queue("events"), id(i), &Bytes::new(), true);
    }
    pool.note_handed_over(1);
    let flush = begin_pool_flush(&pool, 0).expect("runs are pending");
    let total: usize = flush.runs.iter().map(|(_, b)| b.len()).sum();
    let ack = tail
        .writer
        .finish_pool_flush_in(&mut pool, &mut arena, &flush);
    assert_eq!(ack, Some((queue("events"), id(1))));
    assert_eq!(tail.writer.flushed_len(), total as u64);
    assert_eq!(pool.durable_before(), 2);
    assert!(begin_pool_flush(&pool, 0).is_none());
    assert_eq!(pool.page_count(), 2);
    assert_eq!(arena.free_pages(), 2);
}

// ---------------------------------------------------------------------------
// Entries in order.

fn entry(v: u64) -> (UintN, Bytes, Placement) {
    (id(v), Bytes::from(vec![v as u8]), Placement::legacy())
}

fn ids(entries: &[(UintN, Bytes, Placement)]) -> Vec<u64> {
    entries.iter().map(|e| e.0.to_u64().unwrap()).collect()
}

#[test]
fn entries_become_ready_in_id_order() {
    let mut order = OrderedBuffer::new(None);
    assert!(order.can_write(&id(0)));
    assert!(!order.can_write(&id(2)));
    assert!(ids(&order.wait_for_order(entry(2))).is_empty());
    assert!(ids(&order.wait_for_order(entry(4))).is_empty());
    assert!(ids(&order.wait_for_order(entry(3))).is_empty());
    // With entries waiting, even the next one goes through the buffer.
    assert!(!order.can_write(&id(1)));
    assert_eq!(ids(&order.wait_for_order(entry(1))), vec![1, 2, 3, 4]);
    assert!(order.pending_ids().is_empty());
    assert!(order.can_write(&id(5)));
}

#[test]
fn a_buffer_continues_after_the_last_entry() {
    let mut order = OrderedBuffer::new(Some(id(41)));
    assert!(!order.can_write(&id(0)));
    assert!(order.can_write(&id(42)));
    assert!(ids(&order.wait_for_order(entry(44))).is_empty());
    assert_eq!(order.pending_ids(), vec![id(44)]);
}

// ---------------------------------------------------------------------------
// Files.

fn settings(max_file_size: usize, write_buffer_size: usize) -> WalSettings {
    WalSettings {
        max_file_size,
        write_buffer_size,
        write_interval: Duration::from_millis(50),
        enable_fsync: true,
        encryption_type: EncryptionType::Aes,
        compression_type: CompressionType::Zstd,
    }
}

/// A queue's log with its files in memory.
struct Log {
    writer: WalWriter,
    tail: Tail,
    pool: Option<PagePool>,
    files: HashMap<u64, Vec<u8>>,
    blocked: HashSet<u64>,
    complete: Vec<WalFile>,
    acks: Vec<(QueueId, UintN)>,
    closing: bool,
    tries: u32,
}

impl Log {
    fn start(
        queue_id: QueueId,
        header: WalHeader,
        settings: WalSettings,
        last: Option<UintN>,
        mut pool: Option<PagePool>,
    ) -> Log {
        if let Some(p) = pool.as_mut() {
            begin_draining(p, &settings);
        }
        let head = file_header(&header).unwrap();
        let tail = Tail::new(file_settings(&settings), &head, pool.is_some());
        Log {
            writer: WalWriter::new(queue_id, id(1), header, settings, last, pool.is_some()),
            tail,
            pool,
            files: HashMap::new(),
            blocked: HashSet::new(),
            complete: Vec::new(),
            acks: Vec::new(),
            closing: false,
            tries: 0,
        }
    }

    fn flush(&mut self) -> bool {
        let epoch = self.writer.file_epoch();
        self.tail.flush(self.pool.as_mut(), epoch, true)
    }

    fn close_file(&mut self) -> bool {
        let clean = self.flush();
        self.files.insert(
            self.writer.file_id().to_u64().unwrap(),
            std::mem::take(&mut self.tail.content),
        );
        self.acks.append(&mut self.tail.acks);
        clean
    }

    /// Opens the writer's file; gives up only for a close.
    fn open_file(&mut self) -> bool {
        let mut attempt = 0;
        loop {
            let file = self.writer.file_id().to_u64().unwrap();
            if !self.blocked.contains(&file) {
                let head = file_header(self.writer.header()).unwrap();
                self.tail = Tail::new(
                    file_settings(self.writer.settings()),
                    &head,
                    self.pool.is_some(),
                );
                return true;
            }
            self.tries += 1;
            match open_failed(attempt, self.closing) {
                OpenStep::Abandon => return false,
                OpenStep::Retry { .. } => {
                    attempt += 1;
                    // The obstacle passes after a while, unless a close comes.
                    if attempt == 3 && !self.closing {
                        self.blocked.remove(&file);
                    }
                }
            }
        }
    }

    fn write(&mut self, e: (UintN, Bytes, Placement)) -> Result<(), WalError> {
        let e = WalWriter::enqueue(e.0, e.1, e.2);
        let entries = self.writer.accept(e)?;
        let mut run = EntryRun::new(entries);
        loop {
            match run.step(&mut self.writer, &mut self.tail.writer) {
                RunStep::Handed { full } => {
                    if full {
                        self.flush();
                    }
                }
                RunStep::Rotate {
                    next_entry_id,
                    next_data_size,
                } => {
                    let closed_ok = self.close_file();
                    let done = self
                        .writer
                        .rotate(&next_entry_id, next_data_size, closed_ok);
                    self.complete.extend(done);
                    if self.open_file() {
                        run.rotated();
                    } else {
                        self.writer.abandon();
                        run.abandoned();
                    }
                }
                RunStep::Finished => break,
            }
        }
        if let (Some(pool), Some(mark)) = (self.pool.as_mut(), run.handed_through()) {
            pool.note_handed_over(mark);
        }
        run.outcome()
    }

    fn enqueue(&mut self, v: u64, data: &[u8]) {
        self.write((id(v), Bytes::copy_from_slice(data), Placement::legacy()))
            .unwrap();
    }
}

fn read(file: &[u8], from: u64, until: u64, step: usize) -> (Vec<(UintN, Bytes)>, ReadRangeResult) {
    let (entries, result) = read_wal_file_range(
        Bytes::copy_from_slice(file),
        &id(from),
        &Some(id(until)),
        step,
        DataSource::DiskWal,
    )
    .unwrap();
    for e in &entries {
        assert_eq!(e.source, DataSource::DiskWal);
    }
    (entries.into_iter().map(|e| (e.id, e.data)).collect(), result)
}

#[test]
fn test_enqueue_and_read() {
    let mut log = Log::start(
        queue("test_queue"),
        WalHeader::default(),
        settings(1024, 128),
        None,
        None,
    );
    log.enqueue(0, b"hello");
    log.enqueue(1, b"world");
    assert!(log.close_file());

    let (entries, result) = read(&log.files[&1], 0, 1, 1);
    assert_eq!(result, ReadRangeResult::Complete);
    assert_eq!(
        entries,
        vec![(id(0), Bytes::from("hello")), (id(1), Bytes::from("world"))]
    );
    assert_eq!(log.acks.last(), Some(&(queue("test_queue"), id(1))));
}

#[test]
fn test_enqueue_batch_and_read() {
    let mut log = Log::start(
        queue("test_queue"),
        WalHeader::default(),
        settings(1024, 128),
        None,
        None,
    );
    let entries = WalWriter::enqueue_batch(vec![
        (id(0), Bytes::from("hello"), Placement::legacy()),
        (id(1), Bytes::from("world"), Placement::legacy()),
    ]);
    for e in entries {
        log.write(e).unwrap();
    }
    assert!(log.close_file());

    let (entries, result) = read(&log.files[&1], 0, 1, 1);
    assert_eq!(result, ReadRangeResult::Complete);
    assert_eq!(
        entries,
        vec![(id(0), Bytes::from("hello")), (id(1), Bytes::from("world"))]
    );
}

#[test]
fn test_size_based_rotation() {
    let mut log = Log::start(
        queue("test_queue"),
        WalHeader::default(),
        settings(128, 64),
        None,
        None,
    );
    log.enqueue(0, &[0; 64]);
    log.enqueue(1, &[0; 64]);
    assert!(log.close_file());

    assert_eq!(log.complete.len(), 1);
    let received = &log.complete[0];
    assert_eq!(received.queue_id, queue("test_queue"));
    assert_eq!(received.file_id, id(1));
    assert_eq!(received.encryption_type, EncryptionType::Aes);
    assert_eq!(received.compression_type, CompressionType::Zstd);

    let content1 = get_wal_content(Bytes::from(log.files[&1].clone())).unwrap();
    assert_eq!(content1.num_entries, id(1));
    let content2 = get_wal_content(Bytes::from(log.files[&2].clone())).unwrap();
    assert_eq!(content2.num_entries, id(1));
    assert_eq!(content2.entries_before, id(1));
}

#[test]
fn test_v1_enqueue_read_and_scan() {
    let mut log = Log::start(
        queue("v1_queue"),
        WalHeader::default(),
        settings(4096, 128),
        None,
        None,
    );
    let records: Vec<Bytes> = vec![
        Bytes::from_static(b"alpha"),
        Bytes::from_static(b""),
        Bytes::from_static(
            b"a longer gamma record crossing a two byte varint boundary ..............",
        ),
    ];
    for (i, r) in records.iter().enumerate() {
        log.enqueue(i as u64, r);
    }
    assert!(log.close_file());
    let raw = &log.files[&1];
    assert_eq!(raw[0], 1, "new file must carry the V1 header version");

    let (entries, result) = read(raw, 0, 2, 1);
    assert_eq!(result, ReadRangeResult::Complete);
    for (i, r) in records.iter().enumerate() {
        assert_eq!(entries[i], (id(i as u64), r.clone()));
    }

    let content = get_wal_content(Bytes::from(raw.clone())).unwrap();
    assert_eq!(content.num_entries, id(3));
    assert_eq!(content.entries_before, id(0));

    let (_, range) = get_wal_range(raw, &id(1)).unwrap();
    assert_eq!(range, Some((id(0), id(2))));

    let (stepped, _) = read_wal_bytes_range(
        &content.content,
        &id(0),
        &Some(id(2)),
        2,
        DataSource::DiskWal,
    )
    .unwrap();
    assert_eq!(stepped.len(), 2);
    assert_eq!(stepped[0].id, id(0));
    assert_eq!(stepped[0].data, records[0]);
    assert_eq!(stepped[1].id, id(2));
    assert_eq!(stepped[1].data, records[2]);
}

#[test]
fn test_v1_truncated_tail_is_dropped() {
    let mut log = Log::start(
        queue("v1_trunc"),
        WalHeader::default(),
        settings(4096, 128),
        None,
        None,
    );
    for i in 0..3u64 {
        log.enqueue(i, format!("record-{i}").as_bytes());
    }
    assert!(log.close_file());
    let bytes = &log.files[&1];
    let cut = &bytes[..bytes.len() - 3];

    let (_, range) = get_wal_range(cut, &id(1)).unwrap();
    assert_eq!(range, Some((id(0), id(1))));
    let content = get_wal_content(Bytes::copy_from_slice(cut)).unwrap();
    assert_eq!(content.num_entries, id(2));
}

fn build_v1_file(name: &str, n: u64, payload: usize) -> Vec<u8> {
    let s = WalSettings {
        max_file_size: 1 << 30,
        write_buffer_size: 64 * 1024,
        enable_fsync: true,
        ..Default::default()
    };
    let mut log = Log::start(queue(name), WalHeader::default(), s, None, None);
    for i in 0..n {
        log.enqueue(i, &vec![0xCDu8; payload]);
    }
    assert!(log.close_file());
    log.files.remove(&1).unwrap()
}

#[test]
fn test_v1_entries_straddle_window_boundary() {
    let file = build_v1_file("v1_straddle", 40, 12 * 1024);
    let (_, range) = get_wal_range(&file, &id(1)).unwrap();
    assert_eq!(range, Some((id(0), id(39))));
    let content = get_wal_content(Bytes::from(file)).unwrap();
    assert_eq!(content.num_entries, id(40));
}

#[test]
fn test_v1_entry_larger_than_window() {
    let file = build_v1_file("v1_big", 3, 200 * 1024);
    let (_, range) = get_wal_range(&file, &id(1)).unwrap();
    assert_eq!(range, Some((id(0), id(2))));
    let content = get_wal_content(Bytes::from(file)).unwrap();
    assert_eq!(content.num_entries, id(3));
}

#[test]
fn test_v1_truncation_offsets_across_a_frame() {
    let payload = 200usize;
    // [prefix 2][record 200][crc 4]
    let entry_len = 2 + payload + 4;
    let file = build_v1_file("v1_cut", 4, payload);

    for cut in [1usize, 4, 5, 100, 203, 204, entry_len] {
        let (_, range) = get_wal_range(&file[..file.len() - cut], &id(1)).unwrap();
        assert_eq!(
            range,
            Some((id(0), id(2))),
            "cut of {cut} bytes should leave ids 0..=2"
        );
    }
}

#[test]
fn test_mixed_v0_and_v1_files_in_one_queue() {
    // A file of the first format, entries 0 and 1.
    let header1 = WalHeader::new(8, 4, id(0)).unwrap();
    let mut raw1 = BytesMut::new();
    header1.write_to_bytes(&mut raw1);
    for (i, record) in [
        (0u64, Bytes::from_static(b"v0-zero")),
        (1u64, Bytes::from_static(b"v0-one")),
    ] {
        WalEntryHeader::new(id(i), &record)
            .write_to_bytes(&mut raw1, &header1)
            .unwrap();
        raw1.extend_from_slice(&record);
    }

    // A current file, entries 2 and 3.
    let header2 = WalHeader::new(8, 4, id(2)).unwrap();
    let mut log = Log::start(
        queue("mixed_queue"),
        header2,
        settings(4096, 128),
        Some(id(1)),
        None,
    );
    log.enqueue(2, b"v1-two");
    log.enqueue(3, b"v1-three");
    assert!(log.close_file());
    let raw2 = &log.files[&1];

    assert_eq!(raw1[0], 0, "file 1 must be V0");
    assert_eq!(raw2[0], 1, "file 2 must be V1");

    let (_, range1) = get_wal_range(&raw1, &id(1)).unwrap();
    assert_eq!(range1, Some((id(0), id(1))));
    let (_, range2) = get_wal_range(raw2, &id(2)).unwrap();
    assert_eq!(range2, Some((id(2), id(3))));

    let (old, _) = read(&raw1, 0, 1, 1);
    assert_eq!(
        old,
        vec![
            (id(0), Bytes::from_static(b"v0-zero")),
            (id(1), Bytes::from_static(b"v0-one"))
        ]
    );
    let (new, _) = read(raw2, 2, 3, 1);
    assert_eq!(
        new,
        vec![
            (id(2), Bytes::from_static(b"v1-two")),
            (id(3), Bytes::from_static(b"v1-three"))
        ]
    );
}

#[test]
fn test_v1_rotates_on_file_size_not_field_width() {
    let header = WalHeader {
        data_size_bytes: 1,
        ..Default::default()
    };
    let mut log = Log::start(queue("test_queue"), header, settings(4096, 128), None, None);
    log.enqueue(0, b"a");
    // 512 bytes do not fit a size field of one byte, which plays no role.
    log.enqueue(1, &[b'x'; 512]);
    assert!(log.close_file());

    let content1 = get_wal_content(Bytes::from(log.files[&1].clone())).unwrap();
    assert_eq!(content1.num_entries, id(2));
    assert!(!log.files.contains_key(&2));

    let (entries, _) = read(&log.files[&1], 1, 1, 1);
    assert_eq!(entries, vec![(id(1), Bytes::from(vec![b'x'; 512]))]);
}

fn pooled_settings() -> WalSettings {
    WalSettings {
        // Below a page, so every page that opens rotates the file.
        max_file_size: 256,
        write_buffer_size: 128,
        write_interval: Duration::from_millis(10),
        enable_fsync: true,
        encryption_type: EncryptionType::NoEncryption,
        compression_type: CompressionType::NoCompression,
    }
}

#[test]
fn a_rotation_that_cannot_open_its_file_waits_rather_than_desyncing() {
    const COUNT: u64 = 24;
    let mut log = Log::start(
        queue("rotate_fault"),
        WalHeader::default(),
        pooled_settings(),
        None,
        Some(PagePool::new(8, 1024, 0)),
    );
    log.blocked.insert(2);

    let record = vec![b'r'; 200];
    for i in 0..COUNT {
        let placement = place(log.pool.as_mut().unwrap(), i, &record);
        assert!(log.writer.check_epoch(&placement));
        log.write((id(i), Bytes::new(), placement)).unwrap();
    }
    assert_eq!(log.tries, 3);
    assert!(log.close_file());
    assert_eq!(log.pool.as_ref().unwrap().durable_before(), COUNT);

    let mut seen = 0u64;
    for file in 1..=16u64 {
        let Some(content) = log.files.get(&file) else {
            continue;
        };
        let content = get_wal_content(Bytes::from(content.clone())).unwrap();
        assert_eq!(
            content.entries_before,
            id(seen),
            "file {file} claims a different starting id than the files before it hold"
        );
        seen += content.num_entries.to_u64().unwrap();
    }
    assert_eq!(seen, COUNT);
    assert!(log.files.len() > 2);
}

#[test]
fn a_close_interrupts_a_rotation_that_is_stuck_retrying() {
    let mut log = Log::start(
        queue("rotate_close"),
        WalHeader::default(),
        pooled_settings(),
        None,
        Some(PagePool::new(8, 1024, 0)),
    );
    log.blocked.insert(2);
    log.closing = true;

    let record = vec![b'r'; 200];
    let mut outcomes = Vec::new();
    for i in 0..24u64 {
        let placement = place(log.pool.as_mut().unwrap(), i, &record);
        let rotates = placement.rotate == RotateHint::Before;
        outcomes.push(log.write((id(i), Bytes::new(), placement)));
        if rotates {
            break;
        }
    }
    assert_eq!(outcomes.pop(), Some(Err(abandoned())));
    assert!(outcomes.iter().all(|o| o.is_ok()));

    // Entries that still arrive are dropped, and said to be.
    assert_eq!(
        log.write((id(99), Bytes::from("x"), Placement::legacy())),
        Err(abandoned())
    );
}

#[test]
fn a_failed_open_is_complained_about_now_and_then() {
    assert_eq!(open_failed(0, false), OpenStep::Retry { complain: true });
    assert_eq!(open_failed(1, false), OpenStep::Retry { complain: false });
    assert_eq!(open_failed(499, false), OpenStep::Retry { complain: false });
    assert_eq!(open_failed(500, false), OpenStep::Retry { complain: true });
    assert_eq!(open_failed(500, true), OpenStep::Abandon);
}

#[test]
fn a_file_that_did_not_close_well_is_not_complete() {
    let mut writer = WalWriter::new(
        queue("q"),
        id(7),
        WalHeader::default(),
        settings(128, 64),
        None,
        false,
    );
    assert!(writer.rotate(&id(3), 300, false).is_none());
    assert_eq!(writer.file_id(), &id(8));
    assert_eq!(writer.header().num_entries_before, id(3));
    assert_eq!(writer.file_epoch(), 1);
    let done = writer.rotate(&id(5), 10, true).expect("the file is complete");
    assert_eq!(done.file_id, id(8));
}

#[test]
fn a_record_too_wide_for_an_entry_is_an_error() {
    let mut log = Log::start(
        queue("wide"),
        WalHeader::default(),
        pooled_settings(),
        None,
        Some(PagePool::new(2, 1024, 0)),
    );
    let wide = u32::MAX as usize + 1;
    let placement = Placement {
        in_pool: true,
        record_len: wide,
        rotate: RotateHint::NoRotation,
        epoch: 0,
    };
    assert_eq!(
        log.write((id(0), Bytes::new(), placement)),
        Err(WalError::WalEntryV1Error(WalEntryV1Error::RecordTooLarge(
            wide
        )))
    );
}

#[test]
fn a_file_of_an_oversized_counter_cannot_begin() {
    let header = WalHeader::new(8, 8, UintN::from(u128::MAX)).unwrap();
    assert!(matches!(
        file_header(&header),
        Err(WalError::AnyWalHeaderError(_))
    ));
}

#[test]
fn a_pooled_record_travels_without_its_payload() {
    let placement = Placement {
        in_pool: true,
        record_len: 5,
        rotate: RotateHint::NoRotation,
        epoch: 0,
    };
    let batch = WalWriter::enqueue_batch(vec![
        (id(0), Bytes::from("hello"), placement),
        (id(1), Bytes::from("world"), Placement::legacy()),
    ]);
    assert!(batch[0].1.is_empty());
    assert_eq!(batch[0].2, placement);
    assert_eq!(batch[1].1, Bytes::from("world"));
}

#[test]
fn default_settings_of_a_log() {
    let s = WalSettings::default();
    assert_eq!(s.max_file_size, 134_217_728);
    assert_eq!(s.write_buffer_size, 134_217_728);
    assert_eq!(s.write_interval, Duration::from_millis(50));
    assert!(s.enable_fsync);
    assert_eq!(s.encryption_type, EncryptionType::Aes);
    assert_eq!(s.compression_type, CompressionType::Zstd);
}

#[test]
fn files_hold_what_was_placed_over_gaps() {
    let mut pool = PagePool::new(3, 64, 0);
    pool.set_drainer();
    pool.arm_file_fill(1024, 0);
    let mut tail = Tail::new(tail_settings(1024), b"", true);
    let mut want = BytesMut::new();
    // The first id, a small gap and a large one.
    for i in [7u64, 8, 11, 5000] {
        let record = format!("record-{i:05}");
        place(&mut pool, i, record.as_bytes());
        tail.writer
            .write_maybe_pooled(queue("gaps"), id(i), &Bytes::new(), true);
        pool.note_handed_over(i);
        let owed = begin_pool_flush(&pool, 0).expect("a record is owed");
        assert_eq!(owed.runs.len(), 1);
        assert_eq!(owed.runs[0].0.first_entry_id, i);
        assert!(tail.flush(Some(&mut pool), 0, true));
        WalEntryV1::new(record.as_bytes())
            .write_to_bytes(&mut want)
            .unwrap();
        assert_eq!(tail.content, &want[..]);
        assert_eq!(pool.durable_before(), i + 1);
        assert_eq!(tail.acks.last(), Some(&(queue("gaps"), id(i))));
    }
}

#[test]
fn a_flush_ends_though_its_page_was_written_over() {
    let mut pool = PagePool::new(1, 64, 0);
    pool.arm_file_fill(1024, 0);
    let mut tail = Tail::new(tail_settings(1024), b"", true);
    place(&mut pool, 0, &[1; 40]);
    pool.note_handed_over(0);
    let flush = begin_pool_flush(&pool, 0).expect("a record is owed");
    // The record is said to be on disk, and its page is taken for another.
    pool.mark_durable(1);
    place(&mut pool, 1, &[2; 20]);
    assert!(!pool.run_fits(&flush.runs[0].0));
    let ack = tail.writer.finish_pool_flush(&mut pool, &flush);
    assert_eq!(ack, None);
    // What took the page is still owed.
    pool.note_handed_over(1);
    let owed = begin_pool_flush(&pool, 0).expect("a record is owed");
    assert_eq!(owed.runs[0].0.first_entry_id, 1);
    assert_eq!(owed.runs[0].0.from, 0);
}
