//! Archived files: what they look like, and what is made of them again.

use bytes::Bytes;
use normfs::ranges::{RangeCache, RangeStore, RangeStoreError, StoreFront, RANGE_READ_SIZE};
use normfs::store::{
    compression_step, decrypted, is_unfinished, last_entry_id, sealed, store_file_front,
    store_file_header, wal_header_of, ArchiveStep, Codec, Payload, StoreError, StoreFile,
    StoreWriteConfig,
};
use normfs::store_header::{FileAuthentication, StoreHeaderError};
use normfs::store_header_v1::{AnyStoreHeaderError, StoreHeaderV1Error};
use normfs::types::{CompressionType, EncryptionType, QueueId, QueueIdResolver};
use normfs::uintn::{UintN, UintNError};
use normfs::wal_header::WalHeader;
use normfs::wal_store::{
    first_error, first_file_id, get_entries_before, get_file_end, get_file_header, last_file_id,
    old_files, WalFile,
};
use normfs::errors::WalError;
use normfs::writer::file_header;

fn id(v: u64) -> UintN {
    UintN::from(v)
}

fn queue(name: &str) -> QueueId {
    QueueIdResolver::new("node").resolve(name)
}

fn wal_file(compression_type: CompressionType, encryption_type: EncryptionType) -> WalFile {
    WalFile {
        queue_id: queue("q"),
        file_id: id(7),
        encryption_type,
        compression_type,
    }
}

fn store_file(file: &WalFile, before: u64, count: u64, content: &[u8]) -> (Vec<u8>, Bytes) {
    let header = store_file_header(file, &id(before), &id(count)).unwrap();
    let front = store_file_front(vec![1; 64], vec![2; 64]);
    let mut all = front.to_vec();
    all.extend_from_slice(&header);
    all.extend_from_slice(content);
    (all, header)
}

#[test]
fn default_config() {
    let c = StoreWriteConfig::default();
    assert_eq!(c.num_workers, 4);
    assert!(!c.verify_signatures);
}

#[test]
fn an_archived_file_reads_back() {
    let file = wal_file(CompressionType::Zstd, EncryptionType::Aes);
    let nonce = [3u8; 12];
    let content = sealed(&nonce, b"ciphertext");
    let (all, header) = store_file(&file, 10, 5, &content);
    assert_eq!(all.len(), 152 + header.len() + 22);

    let open = StoreFile::open(Bytes::from(all)).unwrap();
    assert_eq!(open.signed_header(), (&header[..], &[1u8; 64][..]));
    assert_eq!(open.signed_content(), (&content[..], &[2u8; 64][..]));
    assert_eq!(open.codec(), Codec::Zstd);
    match open.payload(true, true, true).unwrap() {
        Payload::Encrypted { nonce: n, ciphertext } => {
            assert_eq!(&n[..], &nonce[..]);
            assert_eq!(&ciphertext[..], b"ciphertext");
        }
        Payload::Plain(_) => panic!("the content is encrypted"),
    }
}

#[test]
fn plain_content_comes_as_it_is() {
    let file = wal_file(CompressionType::NoCompression, EncryptionType::NoEncryption);
    let (all, _) = store_file(&file, 0, 1, b"log bytes");
    let open = StoreFile::open(Bytes::from(all)).unwrap();
    assert_eq!(open.codec(), Codec::AsIs);
    match open.payload(false, false, false).unwrap() {
        Payload::Plain(b) => assert_eq!(&b[..], b"log bytes"),
        Payload::Encrypted { .. } => panic!("the content is not encrypted"),
    }
}

#[test]
fn bad_signatures_are_noticed_if_asked_for() {
    let file = wal_file(CompressionType::NoCompression, EncryptionType::NoEncryption);
    let (all, _) = store_file(&file, 0, 1, b"x");
    let open = StoreFile::open(Bytes::from(all)).unwrap();
    for (header_ok, content_ok) in [(false, true), (true, false), (false, false)] {
        assert!(matches!(
            open.payload(true, header_ok, content_ok),
            Err(StoreError::SignatureVerificationFailed)
        ));
        assert!(open.payload(false, header_ok, content_ok).is_ok());
    }
}

#[test]
fn content_too_short_for_its_nonce_cannot_be_decrypted() {
    let file = wal_file(CompressionType::NoCompression, EncryptionType::Aes);
    let (all, _) = store_file(&file, 0, 1, &[9; 11]);
    let open = StoreFile::open(Bytes::from(all)).unwrap();
    assert!(matches!(
        open.payload(false, true, true),
        Err(StoreError::Decrypt)
    ));
    assert_eq!(decrypted(None), Err(StoreError::Decrypt));
    assert_eq!(decrypted(Some(Bytes::from("x"))), Ok(Bytes::from("x")));
}

#[test]
fn a_file_without_a_front_is_an_error() {
    assert!(matches!(
        StoreFile::open(Bytes::from(vec![0; 100])),
        Err(StoreError::Header(StoreHeaderError::SliceTooShort))
    ));
    assert!(matches!(
        StoreFile::open(Bytes::from(vec![1; 200])),
        Err(StoreError::Header(StoreHeaderError::UnsupportedVersion(_)))
    ));
    let front = store_file_front(vec![1; 64], vec![2; 64]);
    assert!(matches!(
        StoreFile::open(front.clone()),
        Err(StoreError::AnyHeader(AnyStoreHeaderError::V1(
            StoreHeaderV1Error::Truncated
        )))
    ));
    let mut wrong = front.to_vec();
    wrong[8] = 63;
    assert_eq!(
        FileAuthentication::from_bytes(&wrong),
        Err(StoreHeaderError::InvalidSignatureSize(63))
    );
}

#[test]
fn only_one_compression_can_be_written() {
    assert_eq!(compression_step(CompressionType::Zstd), Some(Codec::Zstd));
    assert_eq!(
        compression_step(CompressionType::NoCompression),
        Some(Codec::AsIs)
    );
    assert_eq!(compression_step(CompressionType::Gzip), None);
    assert_eq!(compression_step(CompressionType::Xz), None);
    for (c, codec) in [(CompressionType::Gzip, Codec::Zstd), (CompressionType::Xz, Codec::Xz)] {
        let (all, _) = store_file(&wal_file(c, EncryptionType::Aes), 0, 1, &[0; 12]);
        assert_eq!(StoreFile::open(Bytes::from(all)).unwrap().codec(), codec);
    }
}

#[test]
fn counters_beyond_a_word_cannot_be_archived() {
    let file = wal_file(CompressionType::Zstd, EncryptionType::Aes);
    assert_eq!(
        store_file_header(&file, &UintN::from(u128::MAX), &id(1)),
        Err(StoreHeaderV1Error::ValueTooLarge)
    );
}

#[test]
fn the_last_id_is_before_the_next_file() {
    assert_eq!(last_entry_id(&id(10), &id(5)), Ok(id(14)));
    assert_eq!(last_entry_id(&id(10), &id(0)), Ok(id(9)));
    assert_eq!(last_entry_id(&id(0), &id(0)), Err(UintNError::Underflow));
}

#[test]
fn a_log_is_deleted_only_once_it_is_archived() {
    for failing in 0..4usize {
        let mut step = ArchiveStep::ReadLog;
        for i in 0..6usize {
            assert_ne!((i > failing, step), (true, ArchiveStep::DeleteLog));
            step = step.next(i != failing);
        }
        assert_eq!(step, ArchiveStep::Stopped);
    }
    // A range that was not recorded can be read again.
    let mut step = ArchiveStep::ReadLog;
    for i in 0..5usize {
        step = step.next(i != 4);
    }
    assert_eq!(step, ArchiveStep::DeleteLog);
    assert_eq!(step.next(true), ArchiveStep::Finished);
}

#[test]
fn unfinished_files_are_known_by_their_extension() {
    assert!(is_unfinished("0b5c.tmp"));
    assert!(is_unfinished("a.b.tmp"));
    assert!(!is_unfinished(".tmp"));
    assert!(!is_unfinished("0b5c.store"));
    assert!(!is_unfinished("0b5c.tmp2"));
    assert!(!is_unfinished("tmp"));
}

#[test]
fn the_log_header_of_an_archived_file() {
    let header = WalHeader::new(8, 4, id(12)).unwrap();
    let bytes = file_header(&header).unwrap();
    let found = wal_header_of(500, Ok(bytes.clone())).unwrap();
    assert_eq!(found.num_entries_before, id(12));
    assert!(wal_header_of(9, Ok(bytes)).is_none());
    assert!(wal_header_of(500, Ok(Bytes::from("junk"))).is_none());
    assert!(wal_header_of(500, Err(StoreError::Decrypt)).is_none());
}

// ---------------------------------------------------------------------------
// Ranges.

#[test]
fn a_range_is_found_in_the_first_bytes() {
    let file = wal_file(CompressionType::Zstd, EncryptionType::Aes);
    let (all, header) = store_file(&file, 10, 5, &[7; 1000]);
    let front = StoreFront::from_bytes(&all[..RANGE_READ_SIZE]).unwrap();
    assert_eq!(front.signed_header(&all), &header[..]);
    assert_eq!(front.range(false, false), Ok(Some((id(10), id(14)))));
    assert_eq!(front.range(true, true), Ok(Some((id(10), id(14)))));
    assert_eq!(
        front.range(true, false),
        Err(RangeStoreError::SignatureVerificationFailed)
    );

    let (empty, _) = store_file(&file, 10, 0, b"");
    let front = StoreFront::from_bytes(&empty).unwrap();
    assert_eq!(front.range(true, true), Ok(None));
}

#[test]
fn ranges_are_remembered_as_recorded() {
    let mut store = RangeStore::new(true);
    assert!(store.verifies());
    let (a, b) = (queue("a"), queue("b"));
    assert_eq!(store.get_range(&a, &id(1)), None);
    store.record_range(&a, &id(1), &id(0), &id(9));
    store.record_range(&b, &id(1), &id(5), &id(6));
    assert_eq!(store.get_range(&a, &id(1)), Some((id(0), id(9))));
    assert_eq!(store.get_range(&b, &id(1)), Some((id(5), id(6))));
    assert_eq!(store.get_range(&a, &id(2)), None);
    store.record_range(&a, &id(1), &id(1), &id(2));
    assert_eq!(store.get_range(&a, &id(1)), Some((id(1), id(2))));
    assert_eq!(store.get_range(&b, &id(1)), Some((id(5), id(6))));
}

#[test]
fn a_range_that_was_looked_for_is_settled() {
    let mut store = RangeStore::new(false);
    let q = queue("q");
    assert_eq!(
        store.settle_range(&q, &id(1), Err(RangeStoreError::FileNotFound)),
        Ok(None)
    );
    assert_eq!(store.settle_range(&q, &id(1), Ok(None)), Ok(None));
    assert_eq!(store.get_range(&q, &id(1)), None);
    let broken = RangeStoreError::Io("broken".to_string());
    assert!(matches!(
        store.settle_range(&q, &id(1), Err(broken)),
        Err(RangeStoreError::Io(_))
    ));
    assert_eq!(
        store.settle_range(&q, &id(1), Ok(Some((id(3), id(4))))),
        Ok(Some((id(3), id(4))))
    );
    assert_eq!(store.get_range(&q, &id(1)), Some((id(3), id(4))));
}

#[test]
fn ranges_of_objects_are_read_from_their_headers() {
    let mut cache = RangeCache::new();
    let q = queue("q");
    let header = store_file_header(
        &wal_file(CompressionType::Zstd, EncryptionType::Aes),
        &id(100),
        &id(3),
    )
    .unwrap();
    assert_eq!(cache.settle_range(&q, &id(1), None), Ok(None));
    assert!(cache.settle_range(&q, &id(1), Some(&header[..5])).is_err());
    assert_eq!(cache.get_file_range(&q, &id(1)), None);
    assert_eq!(
        cache.settle_range(&q, &id(1), Some(&header)),
        Ok(Some((id(100), id(102))))
    );
    assert_eq!(cache.get_file_range(&q, &id(1)), Some((id(100), id(102))));
    cache.record_range(&q, &id(2), &id(103), &id(104));
    assert_eq!(cache.get_file_range(&q, &id(2)), Some((id(103), id(104))));
}

// ---------------------------------------------------------------------------
// The log files of a queue.

#[test]
fn older_files_are_complete() {
    let q = queue("q");
    let ids = vec![id(3), id(1), id(5), id(4)];
    let files = old_files(
        &q,
        &ids,
        &id(4),
        CompressionType::Zstd,
        EncryptionType::NoEncryption,
    );
    assert_eq!(
        files.iter().map(|f| f.file_id.clone()).collect::<Vec<_>>(),
        vec![id(3), id(1)]
    );
    assert!(files.iter().all(|f| f.queue_id == q
        && f.compression_type == CompressionType::Zstd
        && f.encryption_type == EncryptionType::NoEncryption));
    assert_eq!(first_file_id(&ids), Some(id(1)));
    assert_eq!(last_file_id(&ids), Some(id(5)));
    assert_eq!(first_file_id(&vec![]), None);
    assert_eq!(last_file_id(&vec![]), None);
}

#[test]
fn the_first_failure_is_the_outcome() {
    assert_eq!(first_error(vec![Ok(()), Ok(())]), Ok(()));
    assert_eq!(
        first_error(vec![
            Ok(()),
            Err(WalError::SendError),
            Err(WalError::WalNotFound)
        ]),
        Err(WalError::SendError)
    );
}

#[test]
fn the_end_of_a_file_that_has_none() {
    assert_eq!(get_file_end(None, &id(1)), Ok(None));
    assert_eq!(get_file_end(Some(&[]), &id(1)), Ok(None));
    let head = file_header(&WalHeader::new(8, 8, id(3)).unwrap()).unwrap();
    assert_eq!(get_file_end(Some(&head), &id(1)), Ok(None));
    assert_eq!(get_file_end(Some(&head[..4]), &id(1)), Ok(None));
    assert!(get_file_end(Some(&[2; 30]), &id(1)).is_err());

    assert!(matches!(get_file_header(None, &id(1)), Ok(None)));
    assert_eq!(get_entries_before(Some(&head), &id(1)), Ok(id(3)));
    assert_eq!(
        get_entries_before(None, &id(1)),
        Err(WalError::WalNotFound)
    );
    assert_eq!(
        get_entries_before(Some(&head[..4]), &id(1)),
        Err(WalError::WalEmpty(id(1)))
    );
}
