//! Rings of pages and the arena that backs them.

use normfs::wal_arena::{WalArena, POOL_FREE};
use normfs::wal_ring_v1::{AppendOutcome, WalRing};

#[test]
fn a_ring_finds_what_was_appended() {
    let mut ring = WalRing::new(3, 64, 100);
    assert!(ring.is_empty());
    for i in 0..4u8 {
        assert_eq!(
            ring.append(&[i; 10]),
            AppendOutcome::Cached(100 + i as u64)
        );
    }
    assert_eq!(ring.get(102), Some(&[2u8; 10][..]));
    assert_eq!(ring.get(99), None);
    assert_eq!(ring.get(104), None);
    assert_eq!(ring.min_cached_id(), Some(100));
    assert_eq!(ring.next_entry_id(), 104);
    let (page, index) = ring.seek(103).unwrap();
    assert_eq!(ring.record(page, index), Some(&[3u8; 10][..]));
}

#[test]
fn a_page_is_written_over_only_once_it_is_durable() {
    let mut ring = WalRing::new(2, 32, 0);
    assert_eq!(ring.append(&[1; 20]), AppendOutcome::Cached(0));
    assert_eq!(ring.append(&[2; 20]), AppendOutcome::Cached(1));
    assert_eq!(ring.append(&[3; 20]), AppendOutcome::Full);
    assert_eq!(ring.append(&[3; 40]), AppendOutcome::TooLarge);
    ring.set_essential(1);
    assert_eq!(ring.append(&[3; 20]), AppendOutcome::Cached(2));
    assert_eq!(ring.take_evicted(), Some(0));
    assert_eq!(ring.take_evicted(), None);
    assert_eq!(ring.get(0), None);
    assert_eq!(ring.get(1), Some(&[2u8; 20][..]));
}

#[test]
fn an_id_can_be_stepped_over() {
    let mut ring = WalRing::new(2, 64, 0);
    assert_eq!(ring.append(&[1; 4]), AppendOutcome::Cached(0));
    assert!(ring.skip_entry());
    assert_eq!(ring.append(&[2; 4]), AppendOutcome::Cached(2));
    assert_eq!(ring.get(0), Some(&[1u8; 4][..]));
    assert_eq!(ring.get(1), None);
    assert_eq!(ring.get(2), Some(&[2u8; 4][..]));
}

#[test]
fn a_ring_starts_over_around_its_pins() {
    let mut ring = WalRing::new(2, 64, 0);
    assert_eq!(ring.append(&[1; 4]), AppendOutcome::Cached(0));
    ring.pin(0);
    assert!(ring.reinit(50));
    assert_eq!(ring.page_pin_count(0), 1);
    assert_eq!(ring.active_page(), 1);
    assert_eq!(ring.append(&[2; 4]), AppendOutcome::Cached(50));
    ring.pin(1);
    assert!(!ring.reinit(60));
    ring.unpin(0);
    ring.unpin(1);
    assert!(ring.reinit(60));
}

#[test]
fn rings_share_an_arena_without_sharing_pages() {
    let mut arena = WalArena::new(4, 64);
    assert_eq!((arena.page_count(), arena.page_size()), (4, 64));
    assert!(arena.holders().is_empty());
    let a = arena.reserve(1, "a", 2).unwrap();
    let b = arena.reserve(2, "b", 1).unwrap();
    assert_eq!(arena.free_pages(), 1);
    assert!(arena.reserve(3, "c", 2).is_none());
    assert_eq!(arena.owner_at(a.first_slot), 1);
    assert_eq!(arena.owner_at(b.first_slot), 2);

    let mut ring_a = WalRing::in_arena(&arena, a, 1, 0);
    let mut ring_b = WalRing::in_arena(&arena, b, 2, 0);
    // The page behind the first ring belongs to the second.
    assert!(!ring_a.grow(&mut arena));
    assert!(ring_b.grow(&mut arena));
    assert_eq!(arena.free_pages(), 0);
    assert_eq!(ring_b.page_count(), 2);
    let mut holders = arena.holders();
    holders.sort();
    assert_eq!(
        holders,
        vec![("a".to_string(), 2), ("b".to_string(), 2)]
    );

    assert!(ring_b.shrink(&mut arena, 1));
    assert!(!ring_b.shrink(&mut arena, 1));
    assert_eq!(ring_b.page_count(), 1);
    assert_eq!(ring_a.give_back(&mut arena), 0);
    assert_eq!(arena.holders(), vec![("b".to_string(), 1)]);
    assert_eq!(arena.free_pages(), 3);
    assert_eq!(arena.owner_at(a.first_slot), POOL_FREE);
}
