//! The page pool under pressure: when every page holds records that are not on
//! disk, an append waits, and nothing that was accepted is dropped.

use normfs::page_pool::{
    encoded_len_of, max_record_len, PagePool, PendingWrite, PinnedRecord, PlaceStep, Placement,
    PoolError, RotateHint,
};
use normfs::wal_arena::WalArena;
use normfs::wal_entry_v1::encoded_len;
use normfs::wal_ring_v1::{AppendOutcome, WalRing};

// Two small pages. A record of 16 bytes takes 21 in its entry and 4 for its
// offset, so two fit in a page of 64 bytes and the third needs another page.
const PAGE_SIZE: usize = 64;
const PAGE_COUNT: usize = 2;
const RECORD: [u8; 16] = [0xAB; 16];
const HEADER: u64 = 16;

fn pool() -> PagePool {
    PagePool::new(PAGE_COUNT, PAGE_SIZE, 0)
}

/// Places a record that needs no waiting.
fn place(pool: &mut PagePool, id: u64, record: &[u8]) -> Result<Placement, PoolError> {
    let had_drainer = pool.has_drainer();
    match pool.place(id, record, had_drainer) {
        PlaceStep::Placed { placement, .. } => Ok(placement),
        PlaceStep::Refused(e) => Err(e),
        PlaceStep::Wait => panic!("entry {id} has to wait"),
    }
}

/// The writer takes on everything placed so far.
fn hand_over_all(pool: &mut PagePool) {
    let next = pool.next_entry_id();
    if next > 0 {
        pool.note_handed_over(next - 1);
    }
}

/// Fills every page, and says how many records it took.
fn fill(pool: &mut PagePool) -> u64 {
    let mut n = 0;
    loop {
        match pool.try_append(&RECORD) {
            AppendOutcome::Cached(_) => n += 1,
            AppendOutcome::Full => return n,
            AppendOutcome::TooLarge => panic!("16 B record should fit a 64 B page"),
        }
    }
}

fn release(pool: &mut PagePool, held: Vec<PinnedRecord>) {
    for record in held {
        if let Some(page) = record.page {
            pool.unpin_page(page);
        }
    }
}

fn pins(pool: &PagePool) -> Vec<u32> {
    pool.with_ring(|ring: &WalRing| {
        (0..ring.page_count())
            .map(|k| ring.page_pin_count(k))
            .collect()
    })
}

fn active(pool: &PagePool) -> usize {
    pool.with_ring(|ring: &WalRing| ring.active_page())
}

fn active_first(pool: &PagePool) -> Option<u64> {
    pool.with_ring(|ring: &WalRing| ring.page_first_entry_id(ring.active_page()))
}

fn record_charge() -> u64 {
    encoded_len(RECORD.len() as u32) as u64
}

/// A pool whose file is smaller than one page, so every page rotates it.
fn armed_pool() -> PagePool {
    let mut pool = PagePool::new(4, PAGE_SIZE, 0);
    pool.arm_file_fill(HEADER + record_charge(), HEADER);
    pool
}

/// Places the next record and frees its page, so that the pool never fills.
fn place_next(pool: &mut PagePool) -> (u64, Placement) {
    let id = pool.next_entry_id();
    let placement = place(pool, id, &RECORD).unwrap();
    pool.note_handed_over(id);
    pool.mark_durable(id);
    (id, placement)
}

#[test]
fn try_append_reports_full_rather_than_discarding() {
    let mut pool = pool();
    let n = fill(&mut pool);
    assert!(n >= 2, "expected at least two records to fit, got {n}");
    assert_eq!(pool.try_append(&RECORD), AppendOutcome::Full);
    assert_eq!(pool.next_entry_id(), n);
}

#[test]
fn append_waits_for_a_page_and_resumes_when_one_is_durable() {
    let mut pool = pool();
    let n = fill(&mut pool);

    // No page can be written over: nothing is durable.
    for _ in 0..3 {
        assert_eq!(pool.place(n, &RECORD, false), PlaceStep::Wait);
    }

    pool.mark_durable(n);

    assert!(place(&mut pool, n, &RECORD).is_ok());
    assert_eq!(
        pool.next_entry_id(),
        n + 1,
        "the waiting record keeps the next id in sequence"
    );
}

#[test]
fn nothing_accepted_is_ever_lost() {
    let mut pool = pool();
    let rounds = 3 * PAGE_COUNT as u64;
    let mut ids = Vec::new();

    for _ in 0..rounds {
        loop {
            match pool.try_append(&RECORD) {
                AppendOutcome::Cached(id) => {
                    ids.push(id);
                    break;
                }
                AppendOutcome::Full => {
                    let next = pool.next_entry_id();
                    pool.mark_durable(next);
                }
                AppendOutcome::TooLarge => unreachable!(),
            }
        }
    }

    let expected: Vec<u64> = (0..rounds).collect();
    assert_eq!(ids, expected);
}

#[test]
fn a_record_larger_than_a_page_is_refused() {
    let mut pool = pool();
    let huge = vec![0xEE; PAGE_SIZE * 2];

    let next = pool.next_entry_id();
    assert_eq!(place(&mut pool, next, &huge), Err(PoolError::TooLarge));
    assert_eq!(pool.next_entry_id(), 0, "a refused record consumes no id");
    assert!(pool.is_empty(), "and leaves nothing behind in the pages");
}

#[test]
fn the_cap_is_the_page_minus_the_framing() {
    let cap = max_record_len(PAGE_SIZE);
    assert!(
        cap < PAGE_SIZE,
        "framing and the offset slot always cost something"
    );

    let mut first = pool();
    assert!(
        place(&mut first, 0, &vec![1u8; cap]).is_ok(),
        "a record of exactly the cap fits its page"
    );

    let mut second = pool();
    assert_eq!(
        place(&mut second, 0, &vec![1u8; cap + 1]),
        Err(PoolError::TooLarge),
        "one byte more does not"
    );

    let mut third = pool();
    assert_eq!(
        place(&mut third, 0, &vec![1u8; PAGE_SIZE]),
        Err(PoolError::TooLarge),
        "and a record of exactly a page is over by its framing alone"
    );
}

#[test]
fn a_record_too_wide_to_frame_is_refused() {
    assert!(encoded_len_of(u32::MAX as usize + 1).is_none());
    assert!(encoded_len_of(u32::MAX as usize).is_some());
}

#[test]
fn pending_yields_each_byte_once_and_in_id_order() {
    let mut pool = pool();
    fill(&mut pool);

    assert!(
        pool.take_pending(0).is_empty(),
        "nothing may be written before the writer has taken responsibility for it"
    );

    hand_over_all(&mut pool);
    let first = pool.take_pending(0);
    assert!(
        !first.is_empty(),
        "appended records should be pending a write"
    );
    let total: usize = first.iter().map(|(_, b)| b.len()).sum();
    assert!(total > 0);
    for w in first.windows(2) {
        assert!(
            w[0].0.last_entry_id < w[1].0.first_entry_id,
            "pending runs must come out in id order and must not overlap"
        );
    }

    assert_eq!(
        pool.take_pending(0),
        first,
        "an uncommitted run must stay pending"
    );

    for (w, _) in &first {
        pool.commit_written(w);
    }
    assert!(pool.take_pending(0).is_empty());

    let next = pool.next_entry_id();
    pool.mark_durable(next);
    assert!(matches!(pool.try_append(&RECORD), AppendOutcome::Cached(_)));
    hand_over_all(&mut pool);
    let second = pool.take_pending(0);
    let second_total: usize = second.iter().map(|(_, b)| b.len()).sum();
    assert!(
        second_total < total,
        "only the newly appended run should be pending, got {second_total} of {total}"
    );
}

#[test]
fn durable_watermark_only_moves_forward() {
    let mut pool = pool();
    fill(&mut pool);
    pool.mark_durable(2);
    assert_eq!(pool.durable_before(), 2);
    pool.mark_durable(1);
    assert_eq!(pool.durable_before(), 2);
}

#[test]
fn a_page_never_holds_entries_for_two_files() {
    let mut pool = armed_pool();

    let mut file_of: Vec<(u64, u64)> = Vec::new();
    for _ in 0..8 {
        let (id, placement) = place_next(&mut pool);
        file_of.push((id, placement.epoch));
    }

    assert!(
        file_of.iter().any(|(_, epoch)| *epoch > 0),
        "a file smaller than a page should rotate on every page"
    );

    pool.with_ring(|ring: &WalRing| {
        for k in 0..ring.page_count() {
            let (Some(first), Some(last)) =
                (ring.page_first_entry_id(k), ring.page_last_entry_id(k))
            else {
                continue;
            };
            let epoch_of = |id: u64| file_of.iter().find(|(i, _)| *i == id).map(|(_, e)| *e);
            assert_eq!(
                epoch_of(first),
                epoch_of(last),
                "page {k} holds entries {first}..={last} of different files"
            );
        }
    });
}

#[test]
fn a_file_ends_only_where_a_page_ends() {
    let mut pool = PagePool::new(4, PAGE_SIZE, 0);
    // One record over, so the threshold is crossed in the middle of page 0.
    pool.arm_file_fill(HEADER + record_charge(), HEADER);

    let mut rotations = 0;
    for _ in 0..8 {
        let id = pool.next_entry_id();
        let placement = place(&mut pool, id, &RECORD).unwrap();
        let opened_page = active_first(&pool) == Some(id);
        if placement.rotate == RotateHint::Before {
            rotations += 1;
            assert!(
                opened_page,
                "entry {id} rotated the file without opening a page"
            );
        }
        pool.mark_durable(id);
    }
    assert!(rotations > 0, "the file should have rotated at least once");
}

#[test]
fn a_flush_takes_only_its_own_files_pages() {
    let mut pool = armed_pool();

    let mut of_epoch: Vec<(u64, u64)> = Vec::new();
    while pool.epoch() < 2 {
        let (id, placement) = place_next(&mut pool);
        of_epoch.push((id, placement.epoch));
    }

    for epoch in 0..=pool.epoch() {
        let taken = pool.take_pending(epoch);
        let mut ids: Vec<u64> = taken.iter().map(|(w, _)| w.last_entry_id).collect();
        ids.sort_unstable();
        for id in &ids {
            let charged = of_epoch.iter().find(|(i, _)| i == id).map(|(_, e)| *e);
            assert_eq!(
                charged,
                Some(epoch),
                "file {epoch} was handed entry {id}, which belongs to file {charged:?}"
            );
        }
        for (w, _) in &taken {
            pool.commit_written(w);
        }
        assert!(
            pool.take_pending(epoch).is_empty(),
            "nothing may be handed out twice"
        );
    }
}

#[test]
fn a_file_takes_its_first_record_however_large() {
    let wide = vec![0x5A; max_record_len(PAGE_SIZE)];

    let mut pool = PagePool::new(4, PAGE_SIZE, 0);
    pool.arm_file_fill(HEADER + 4, HEADER);

    let id = pool.next_entry_id();
    let first = place(&mut pool, id, &wide).unwrap();
    pool.note_handed_over(id);
    pool.mark_durable(id + 1);
    assert_eq!(
        first.rotate,
        RotateHint::NoRotation,
        "a record larger than the maximum still opens the first file rather than skipping it"
    );

    for expected in 1..=3u64 {
        let id = pool.next_entry_id();
        let p = place(&mut pool, id, &wide).unwrap();
        pool.note_handed_over(id);
        pool.mark_durable(id + 1);
        assert_eq!((p.rotate, p.epoch), (RotateHint::Before, expected));
    }
}

#[test]
fn the_fill_counts_each_entry_exactly_once() {
    let mut pool = PagePool::new(4, PAGE_SIZE, 0);
    pool.arm_file_fill(1 << 20, HEADER);

    for n in 1..=5u64 {
        place_next(&mut pool);
        assert_eq!(
            pool.fill_used(),
            Some(HEADER + record_charge() * n),
            "after {n} records the file should hold its header plus {n} encoded entries"
        );
    }
}

#[test]
fn arming_a_writer_does_not_adopt_what_the_pool_already_held() {
    let mut pool = pool();
    fill(&mut pool);
    hand_over_all(&mut pool);
    assert!(
        !pool.take_pending(0).is_empty() || pool.next_entry_id() > 0,
        "the pool should be holding records before the writer arms"
    );

    let next = pool.next_entry_id();
    pool.mark_durable(next);
    assert!(matches!(pool.try_append(&RECORD), AppendOutcome::Cached(_)));
    hand_over_all(&mut pool);
    assert!(
        !pool.take_pending(0).is_empty(),
        "that run is pending a write"
    );
    assert!(matches!(pool.try_append(&RECORD), AppendOutcome::Cached(_)));

    pool.arm_file_fill(1 << 20, 16);
    assert!(
        pool.take_pending(0).is_empty(),
        "a newly armed writer must not adopt records it has no header entry for"
    );

    let id = pool.next_entry_id();
    pool.mark_durable(id);
    place(&mut pool, id, &RECORD).unwrap();
    pool.note_handed_over(id);
    let pending = pool.take_pending(0);
    assert_eq!(
        pending.iter().map(|(w, _)| w.last_entry_id).max(),
        Some(id),
        "records enqueued after arming are written normally"
    );
}

#[test]
fn a_closed_files_run_is_not_absorbed_by_the_next_file() {
    let mut pool = armed_pool();

    // File 0 takes a record and never writes it.
    let id0 = pool.next_entry_id();
    place(&mut pool, id0, &RECORD).unwrap();
    pool.note_handed_over(id0);
    assert!(
        pool.take_pending(0)
            .iter()
            .any(|(w, _)| w.first_entry_id == id0),
        "file 0 has a run pending"
    );

    pool.mark_durable(id0);
    let mut rotated = false;
    while !rotated {
        rotated = place_next(&mut pool).1.rotate == RotateHint::Before;
    }
    let epoch = pool.epoch();
    assert!(epoch > 0);

    let taken = pool.take_pending(epoch);
    let ids: Vec<u64> = taken.iter().map(|(w, _)| w.first_entry_id).collect();
    assert!(
        !ids.contains(&id0),
        "the open file must not absorb the run the closed file left: took runs from {ids:?}"
    );
}

#[test]
fn a_record_too_wide_to_frame_does_not_move_the_epoch() {
    let mut pool = PagePool::new(4, PAGE_SIZE, 0);
    pool.arm_file_fill(HEADER + record_charge() * 2, HEADER);

    let id = pool.next_entry_id();
    place(&mut pool, id, &RECORD).unwrap();
    pool.note_handed_over(id);
    pool.mark_durable(id + 1);
    let before = (pool.epoch(), pool.fill_used(), pool.next_entry_id());

    assert!(encoded_len_of(u32::MAX as usize).is_some());
    assert!(encoded_len_of(u32::MAX as usize + 1).is_none());
    assert_eq!(
        (pool.epoch(), pool.fill_used(), pool.next_entry_id()),
        before,
        "consulting the frame limit must not move the file accounting"
    );
}

#[test]
fn a_file_is_never_closed_before_it_takes_a_record() {
    let mut pool = PagePool::new(4, PAGE_SIZE, 0);

    for _ in 0..2 {
        assert!(matches!(pool.try_append(&RECORD), AppendOutcome::Cached(_)));
    }
    assert_eq!(
        active(&pool),
        0,
        "two records fill page 0 and leave it active"
    );
    let next = pool.next_entry_id();
    pool.mark_durable(next);

    // Smaller than the header.
    pool.arm_file_fill(HEADER / 2, HEADER);

    let id = pool.next_entry_id();
    let first = place(&mut pool, id, &RECORD).unwrap();
    assert!(
        active_first(&pool) == Some(id),
        "this test only means something if the first record opens a page"
    );
    assert_eq!(
        first.rotate,
        RotateHint::NoRotation,
        "the first record of a file must not rotate it away before it holds anything"
    );
    assert_eq!(first.epoch, 0);
}

#[test]
fn a_flush_never_runs_ahead_of_the_writer() {
    let mut pool = PagePool::new(4, PAGE_SIZE, 0);
    pool.set_drainer();
    pool.arm_file_fill(1 << 20, HEADER);

    let wide = vec![0x44; max_record_len(PAGE_SIZE)];
    place(&mut pool, 0, &wide).unwrap();
    place(&mut pool, 1, &RECORD).unwrap();

    assert!(
        pool.take_pending(0).is_empty(),
        "neither record has reached the writer, so neither may be written"
    );

    pool.note_handed_over(0);
    let first = pool.take_pending(0);
    let last_ids = |runs: &Vec<(PendingWrite, bytes::Bytes)>| {
        runs.iter().map(|(w, _)| w.last_entry_id).collect::<Vec<_>>()
    };
    assert_eq!(
        last_ids(&first),
        vec![0],
        "only the record the writer has claimed"
    );
    for (w, _) in &first {
        pool.commit_written(w);
    }

    pool.note_handed_over(1);
    let second = pool.take_pending(0);
    assert_eq!(
        second
            .iter()
            .map(|(w, _)| w.first_entry_id)
            .collect::<Vec<_>>(),
        vec![1]
    );
}

#[test]
fn a_page_is_handed_over_one_entry_at_a_time() {
    let mut pool = PagePool::new(4, 4096, 0);
    pool.set_drainer();
    pool.arm_file_fill(1 << 20, HEADER);

    for id in 0..5u64 {
        place(&mut pool, id, &RECORD).unwrap();
    }

    let charge = record_charge() as usize;
    for claimed in 0..5u64 {
        pool.note_handed_over(claimed);
        let taken = pool.take_pending(0);
        let bytes: usize = taken.iter().map(|(_, b)| b.len()).sum();
        assert_eq!(
            bytes,
            charge * (claimed as usize + 1),
            "a flush must stop at the end of entry {claimed}, not part-way into the next"
        );
        assert_eq!(
            taken.iter().map(|(w, _)| w.last_entry_id).max(),
            Some(claimed)
        );
    }
}

#[test]
fn a_pinned_page_is_not_reused_while_a_reader_holds_it() {
    let mut pool = pool();
    let n = fill(&mut pool);
    assert!(n >= 2);

    let held = pool.pin_range(0, 0);
    assert_eq!(held.len(), 1, "entry 0 should be held in memory");
    assert_eq!(&held[0].data[..], &RECORD[..], "the payload reads back");
    pool.mark_durable(n);

    let pinned_page = pins(&pool)
        .iter()
        .position(|&p| p > 0)
        .expect("a page should be pinned");
    assert_eq!(held[0].page, Some(pinned_page));

    for _ in 0..(2 * PAGE_COUNT + 2) {
        let _ = pool.try_append(&RECORD);
        let still_there = pool.with_ring(|ring: &WalRing| ring.page_first_entry_id(pinned_page));
        assert_eq!(
            still_there,
            Some(0),
            "a page a reader is holding was recycled under it"
        );
    }
    assert_eq!(&held[0].data[..], &RECORD[..]);

    release(&mut pool, held);
    assert_eq!(pins(&pool)[pinned_page], 0);
    assert!(
        matches!(pool.try_append(&RECORD), AppendOutcome::Cached(_)),
        "and the page becomes reusable again"
    );
}

#[test]
fn every_pin_is_released_even_when_payloads_are_dropped_unread() {
    let mut pool = pool();
    fill(&mut pool);

    for _ in 0..5 {
        let batch = pool.pin_range(0, u64::MAX);
        assert!(!batch.is_empty());
        release(&mut pool, batch);
    }

    let pinned: u32 = pins(&pool).iter().sum();
    assert_eq!(pinned, 0);
}

#[test]
fn a_reseed_does_not_reset_a_page_a_reader_is_holding() {
    let mut pool = pool();
    fill(&mut pool);

    let borrowed = pool.pin_range(0, 0);
    assert_eq!(borrowed.len(), 1);
    let pinned_page = pins(&pool)
        .iter()
        .position(|&p| p > 0)
        .expect("the payload holds a pin");

    assert!(pool.reseed(64), "one page is free, so this can proceed");
    assert_eq!(
        pins(&pool)[pinned_page],
        1,
        "a reseed must carry the pin across, or the page is handed out to be overwritten"
    );

    for _ in 0..64 {
        let _ = pool.try_append(&RECORD);
    }
    assert_eq!(&borrowed[0].data[..], &RECORD[..]);

    release(&mut pool, borrowed);
    assert_eq!(pins(&pool)[pinned_page], 0);
}

#[test]
fn a_read_never_pins_the_last_page() {
    let mut pool = pool();
    fill(&mut pool);

    let held = pool.pin_range(0, u64::MAX);
    assert!(!held.is_empty());

    let unpinned = pins(&pool).iter().filter(|&&p| p == 0).count();
    assert!(
        unpinned >= 1,
        "a read that pins every page leaves the writer nowhere to append"
    );
}

#[test]
fn a_reader_may_hold_only_its_share_of_the_pool() {
    let mut pool = PagePool::new(8, PAGE_SIZE, 0);
    fill(&mut pool);

    let _first = pool.pin_range(0, u64::MAX);
    let _second = pool.pin_range(0, u64::MAX);

    let counts = pins(&pool);
    let pinned = counts.iter().filter(|&&p| p > 0).count();
    assert!(pinned <= 4, "reads hold {pinned} of 8 pages");
    assert_eq!(
        counts[active(&pool)],
        0,
        "the page being appended into must never be pinned"
    );
}

#[test]
fn one_read_hands_out_a_bounded_number_of_borrowed_payloads() {
    let mut pool = PagePool::new(8, 4096, 0);
    for id in 0..2000u64 {
        place(&mut pool, id, &RECORD).unwrap();
        pool.mark_durable(id);
    }

    let got = pool.pin_range(0, u64::MAX);
    assert!(!got.is_empty());
    let pinned: u32 = pins(&pool).iter().sum();
    assert!(
        (pinned as usize) <= 4096,
        "one read borrowed {pinned} payloads; past the bound they must be copied"
    );
}

#[test]
fn an_append_makes_progress_while_a_reader_holds_everything() {
    let mut pool = pool();
    fill(&mut pool);
    pool.set_drainer();

    let next = pool.next_entry_id();
    pool.mark_durable(next);

    let _held = pool.pin_range(0, u64::MAX);

    assert!(
        place(&mut pool, next, &RECORD).is_ok(),
        "a reader holding payloads must not stall an append for ever"
    );

    let next = pool.next_entry_id();
    pool.mark_durable(next);
    let ahead = pool.next_entry_id() + 3;
    assert!(
        place(&mut pool, ahead, &RECORD).is_ok(),
        "stepping the sequence must not wait on a pin either"
    );
    assert_eq!(pool.next_entry_id(), ahead + 1);
}

#[test]
fn eviction_above_a_pinned_page_raises_the_cache_floor() {
    let mut pool = PagePool::new(3, PAGE_SIZE, 0);

    // Fill page 0 and pin it, so rotation can never take it.
    let mut last_on_p0 = 0;
    while active(&pool) == 0 {
        last_on_p0 = pool.next_entry_id();
        assert!(matches!(pool.try_append(&RECORD), AppendOutcome::Cached(_)));
    }
    let pinned = pool.pin_range(0, last_on_p0);
    assert!(!pinned.is_empty());

    let evicted_last = loop {
        let next = pool.next_entry_id();
        pool.mark_durable(next);
        let before: Vec<Option<u64>> = pool.with_ring(|r: &WalRing| {
            (0..r.page_count())
                .map(|k| r.page_last_entry_id(k))
                .collect()
        });
        let active_before = active(&pool);
        assert!(matches!(pool.try_append(&RECORD), AppendOutcome::Cached(_)));
        let active_after = active(&pool);
        if active_after != active_before {
            if let Some(last) = before[active_after] {
                break last;
            }
        }
    };

    let floor = pool.min_cached_id();
    assert!(
        floor.is_none_or(|m| m > evicted_last),
        "memory still answers from id {floor:?}, across the gap left by evicting ids up to \
         {evicted_last}"
    );
    let served = pool.pin_range(0, evicted_last);
    assert!(
        served.is_empty(),
        "a read below the eviction gap must go to the file"
    );
}

#[test]
fn a_read_below_the_cache_floor_returns_empty() {
    let mut pool = PagePool::new(2, PAGE_SIZE, 0);
    pool.arm_file_fill(1 << 20, HEADER);

    let wide = vec![0u8; max_record_len(PAGE_SIZE)];
    for id in 0..2u64 {
        place(&mut pool, id, &wide).unwrap();
    }
    hand_over_all(&mut pool);
    for (w, _) in &pool.take_pending(0) {
        pool.commit_written(w);
    }
    pool.mark_durable(2);
    place(&mut pool, 2, &wide).unwrap();

    assert!(
        pool.min_cached_id().is_none_or(|m| m > 0),
        "the evicted id must be below the floor for this to test anything"
    );
    assert!(pool.pin_range(0, 0).is_empty());
    assert!(pool.collect_range(0, 0).is_empty());
}

#[test]
fn a_resync_waits_rather_than_discarding_unwritten_records() {
    let mut pool = PagePool::new(2, PAGE_SIZE, 0);
    pool.set_drainer();
    pool.arm_file_fill(1 << 20, HEADER);

    let id = pool.next_entry_id();
    place(&mut pool, id, &RECORD).unwrap();
    pool.note_handed_over(id);

    let far = id + 5_000;
    assert_eq!(
        pool.place(far, &RECORD, true),
        PlaceStep::Wait,
        "the pool renumbered past an unwritten record"
    );
    assert!(
        pool.take_pending(0)
            .iter()
            .any(|(w, _)| w.first_entry_id == id),
        "the unwritten record must still be held"
    );

    for (w, _) in pool.take_pending(0) {
        pool.commit_written(&w);
    }
    pool.mark_durable(id + 1);
    assert!(
        place(&mut pool, far, &RECORD).is_ok(),
        "a drained pool must resync"
    );
    assert_eq!(pool.next_entry_id(), far + 1);
}

#[test]
fn a_parked_append_returns_when_the_drainer_leaves() {
    let mut pool = PagePool::new(2, 256, 0);
    pool.set_drainer();
    pool.arm_file_fill(1 << 20, 4);

    let record = vec![0x33u8; 100];
    let mut id = 0;
    loop {
        match pool.place(id, &record, true) {
            PlaceStep::Placed { .. } => id += 1,
            PlaceStep::Refused(e) => panic!("a record this size fits a page: {e:?}"),
            PlaceStep::Wait => break,
        }
    }

    assert_eq!(pool.place(id, &record, true), PlaceStep::Wait);
    pool.clear_drainer();
    assert_eq!(
        pool.place(id, &record, true),
        PlaceStep::Refused(PoolError::NoDrainer)
    );
}

#[test]
fn a_stall_names_what_holds_the_pool() {
    let mut pool = pool();
    let n = fill(&mut pool);
    let held = pool.pin_range(0, 0);
    let report = pool.stall_report();
    assert_eq!(report.pinned, 1);
    assert_eq!(report.page_count, PAGE_COUNT);
    assert_eq!(report.durable_before, 0);
    assert_eq!(report.oldest, Some((0, 1, 1)));
    assert_eq!(n, 4);
    release(&mut pool, held);
}

#[test]
fn a_flush_is_due_once_enough_is_unwritten() {
    let mut pool = PagePool::new(2, 4096, 0);
    let big = vec![7u8; 3000];
    let first = pool.place(0, &big, false);
    assert!(matches!(first, PlaceStep::Placed { .. }));
    assert!(pool.has_pending());
    let second = pool.place(1, &big, false);
    assert!(matches!(second, PlaceStep::Placed { flush: true, .. }));
}

#[test]
fn memory_serves_copies_of_what_was_placed() {
    let mut pool = PagePool::new(2, 4096, 10);
    for id in 10..15u64 {
        place(&mut pool, id, &[id as u8; 3]).unwrap();
    }
    assert_eq!(pool.min_cached_id(), Some(10));
    assert_eq!(
        pool.collect_range(11, 12),
        vec![(11, vec![11u8; 3]), (12, vec![12u8; 3])]
    );
    assert!(!pool.is_fully_durable());
    pool.mark_durable(15);
    assert!(pool.is_fully_durable());
}

#[test]
fn a_run_states_the_first_id_that_it_covers() {
    let mut pool = PagePool::new(4, 4096, 0);
    pool.set_drainer();
    pool.arm_file_fill(1 << 20, HEADER);
    for id in 0..5 {
        place(&mut pool, id, &RECORD).unwrap();
    }
    pool.note_handed_over(2);
    let first = pool.take_pending(0);
    assert_eq!(first.len(), 1);
    assert_eq!((first[0].0.first_entry_id, first[0].0.last_entry_id), (0, 2));
    assert!(pool.run_fits(&first[0].0));
    pool.commit_written(&first[0].0);

    pool.note_handed_over(4);
    let rest = pool.take_pending(0);
    assert_eq!(rest.len(), 1);
    let (w, bytes) = &rest[0];
    assert_eq!((w.from, w.to, bytes.len()), (63, 105, 42));
    assert_eq!((w.first_entry_id, w.last_entry_id), (3, 4));
    // A run that ends within an entry, or on no page, is none.
    assert!(!pool.run_fits(&PendingWrite { to: 64, ..*w }));
    assert!(!pool.run_fits(&PendingWrite { page: 4, ..*w }));
}

#[test]
fn a_pool_is_durable_though_a_reader_holds_a_page() {
    let mut pool = pool();
    assert_eq!(fill(&mut pool), 4);
    let held = pool.pin_range(0, 0);
    assert_eq!(pins(&pool).iter().sum::<u32>(), 1);
    assert!(!pool.is_fully_durable());
    pool.mark_durable(4);
    assert!(pool.is_fully_durable());
    release(&mut pool, held);
    assert_eq!(pins(&pool), vec![0, 0]);
}

#[test]
fn pages_go_back_only_once_no_reader_holds_one() {
    let mut arena = WalArena::new(4, PAGE_SIZE);
    let range = arena.reserve(7, "events", 2).unwrap();
    let mut pool = PagePool::new_in(&arena, range, 7, 0, 2);
    assert_eq!(fill(&mut pool), 4);
    let held = pool.pin_range(0, 0);
    pool.mark_durable(4);
    assert!(pool.is_fully_durable());
    pool.release_to_arena(&mut arena);
    assert_eq!(arena.free_pages(), 2);
    release(&mut pool, held);
    pool.release_to_arena(&mut arena);
    assert_eq!(arena.free_pages(), 4);
}

#[test]
fn copies_and_held_payloads_are_the_same() {
    let mut pool = PagePool::new(3, PAGE_SIZE, 10);
    for id in 10..15u64 {
        place(&mut pool, id, &[id as u8; 16]).unwrap();
    }
    let copies = pool.collect_range(11, 20);
    let held = pool.pin_range(11, 20);
    let payloads: Vec<(u64, Vec<u8>)> = held.iter().map(|r| (r.id, r.data.to_vec())).collect();
    assert_eq!(copies, payloads);
    assert_eq!(copies.len(), 4);
    assert!(pool.pin_range(0, 9).is_empty());
    assert!(pool.pin_range(12, 11).is_empty());
    release(&mut pool, held);
    assert_eq!(pins(&pool), vec![0, 0, 0]);
}
