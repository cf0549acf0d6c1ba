//! Queue ids, codes and positions.

use normfs::types::{
    CompressionType, DataSource, EncryptionType, QueueId, QueueIdResolver, ReadEntry, ReadPosition,
};
use normfs::uintn::UintN;

fn resolve(path: &str) -> QueueId {
    QueueIdResolver::new("node-1").resolve(path)
}

#[test]
fn relative_queues_belong_to_the_instance() {
    assert_eq!(QueueIdResolver::new("node-1").instance_id(), "node-1");
    assert_eq!(resolve("events").as_str(), "/node-1/events");
    assert_eq!(resolve("/shared/events").as_str(), "/shared/events");
    assert_eq!(
        resolve("events").to_key_derivation_base(),
        "/node-1/events"
    );
    assert!(resolve("events").equals(&resolve("/node-1/events")));
    assert!(!resolve("events").equals(&resolve("/events")));
}

#[test]
fn paths_of_a_queue() {
    let q = resolve("events");
    assert_eq!(q.to_wal_dir("/data"), "/data/node-1/events/wal");
    assert_eq!(q.to_store_dir("/data"), "/data/node-1/events/store");
    assert_eq!(
        q.to_wal_path("/data", "7.wal"),
        "/data/node-1/events/wal/7.wal"
    );
    assert_eq!(
        q.to_store_path("/data", "7.store"),
        "/data/node-1/events/store/7.store"
    );
    assert_eq!(q.to_cloud_queue_path("/bucket/"), "bucket/node-1/events/");
    assert_eq!(q.to_cloud_queue_path("//"), "node-1/events/");
    assert_eq!(
        q.to_cloud_key("bucket", "/ab/7.store"),
        "bucket/node-1/events/ab/7.store"
    );
}

#[test]
fn codes_roundtrip_and_others_are_rejected() {
    for code in 0..4u64 {
        let c = CompressionType::try_from(code).unwrap();
        assert_eq!(u64::from(c), code);
    }
    for code in 0..2u64 {
        let e = EncryptionType::try_from(code).unwrap();
        assert_eq!(u64::from(e), code);
    }
    assert_eq!(
        CompressionType::try_from(9),
        Err("Unsupported compression type: 9".to_string())
    );
    assert_eq!(
        EncryptionType::try_from(12),
        Err("Unsupported encryption type: 12".to_string())
    );
}

#[test]
fn positions_know_where_they_count_from() {
    let a = ReadPosition::absolute(UintN::from(3u64));
    assert!(a.is_absolute() && !a.is_tail_relative());
    assert_eq!(a.offset(), &UintN::from(3u64));
    let t = ReadPosition::shift_from_tail(UintN::from(4u64));
    assert!(t.is_tail_relative() && !t.is_absolute());
    assert_eq!(t.offset(), &UintN::from(4u64));
}

#[test]
fn an_entry_says_where_it_was_read() {
    let e = ReadEntry::new(
        UintN::from(1u64),
        bytes::Bytes::from("x"),
        DataSource::DiskWal,
    );
    assert_eq!(e.id, UintN::from(1u64));
    assert_eq!(e.source, DataSource::DiskWal);
}
