//! Reading log files, whole and damaged.

use bytes::{Bytes, BytesMut};
use normfs::errors::WalError;
use normfs::reader::{
    get_wal_content, get_wal_header, get_wal_range, read_wal_bytes_range, read_wal_file_range,
    read_wal_header, ReadRangeResult,
};
use normfs::types::DataSource;
use normfs::uintn::UintN;
use normfs::wal_entry::{WalEntryError, WalEntryHeader};
use normfs::wal_entry_v1::WalEntryV1;
use normfs::wal_header::WalHeader;
use normfs::wal_header_v1::WalHeaderV1;

fn id(v: u64) -> UintN {
    UintN::from(v)
}

fn file(before: u64, records: &[&[u8]]) -> Vec<u8> {
    let mut out = BytesMut::new();
    WalHeaderV1::new(8, 8, before)
        .unwrap()
        .write_to_bytes(&mut out)
        .unwrap();
    for r in records {
        WalEntryV1::new(r).write_to_bytes(&mut out).unwrap();
    }
    out.to_vec()
}

fn old_file(before: u64, records: &[(u64, &[u8])]) -> Vec<u8> {
    let header = WalHeader::new(4, 4, id(before)).unwrap();
    let mut out = BytesMut::new();
    header.write_to_bytes(&mut out);
    for (i, r) in records {
        WalEntryHeader::new(id(*i), r)
            .write_to_bytes(&mut out, &header)
            .unwrap();
        out.extend_from_slice(r);
    }
    out.to_vec()
}

fn ids_of(content: &[u8], from: u64, until: Option<u64>, step: usize) -> (Vec<u64>, ReadRangeResult) {
    let (entries, result) = read_wal_bytes_range(
        &Bytes::copy_from_slice(content),
        &id(from),
        &until.map(id),
        step,
        DataSource::Memory,
    )
    .unwrap();
    (
        entries.iter().map(|e| e.id.to_u64().unwrap()).collect(),
        result,
    )
}

#[test]
fn a_range_read_picks_what_was_asked_for() {
    let f = file(5, &[b"a", b"b", b"c", b"d", b"e"]);
    assert_eq!(
        ids_of(&f, 6, Some(8), 1),
        (vec![6, 7, 8], ReadRangeResult::Complete)
    );
    assert_eq!(
        ids_of(&f, 5, Some(9), 2),
        (vec![5, 7, 9], ReadRangeResult::Complete)
    );
    assert_eq!(
        ids_of(&f, 8, Some(20), 1),
        (
            vec![8, 9],
            ReadRangeResult::PartialRead {
                last_read_id: Some(id(9)),
                last_id_in_file: id(9)
            }
        )
    );
    assert_eq!(
        ids_of(&f, 20, None, 1),
        (
            vec![],
            ReadRangeResult::PartialRead {
                last_read_id: None,
                last_id_in_file: id(9)
            }
        )
    );
    // A step of zero counts as one.
    assert_eq!(ids_of(&f, 5, Some(7), 0).0, vec![5, 6, 7]);
}

#[test]
fn a_damaged_entry_ends_a_file() {
    let mut f = file(0, &[b"first", b"second", b"third"]);
    let n = f.len();
    // Within the record of the second entry.
    f[n - 10 - 6] ^= 0x10;
    let (_, range) = get_wal_range(&f, &id(1)).unwrap();
    assert_eq!(range, Some((id(0), id(0))));
    let content = get_wal_content(Bytes::from(f)).unwrap();
    assert_eq!(content.num_entries, id(1));
}

#[test]
fn files_of_the_first_format_are_read_by_their_own_ids() {
    let f = old_file(3, &[(3, b"three"), (4, b"four")]);
    let (h, range) = get_wal_range(&f, &id(1)).unwrap();
    assert_eq!(h.num_entries_before, id(3));
    assert_eq!(range, Some((id(3), id(4))));
    assert_eq!(ids_of(&f, 3, Some(4), 1).0, vec![3, 4]);

    // A record whose checksum is wrong is not delivered.
    let mut broken = f.clone();
    let n = broken.len();
    broken[n - 1] ^= 1;
    let (ids, result) = ids_of(&broken, 3, Some(4), 1);
    assert_eq!(ids, vec![3]);
    assert_eq!(
        result,
        ReadRangeResult::PartialRead {
            last_read_id: Some(id(3)),
            last_id_in_file: id(4),
        }
    );
}

#[test]
fn a_read_is_complete_only_if_what_was_asked_for_was_read() {
    let whole = old_file(0, &[(0, b"zero"), (1, b"one"), (2, b"two")]);
    assert_eq!(
        ids_of(&whole, 0, Some(2), 1),
        (vec![0, 1, 2], ReadRangeResult::Complete)
    );

    // The last record is cut short.
    let torn = &whole[..whole.len() - 1];
    assert_eq!(
        ids_of(torn, 0, Some(2), 1),
        (
            vec![0, 1],
            ReadRangeResult::PartialRead {
                last_read_id: Some(id(1)),
                last_id_in_file: id(2),
            }
        )
    );
    // It was not asked for.
    assert_eq!(
        ids_of(torn, 0, Some(1), 1),
        (vec![0, 1], ReadRangeResult::Complete)
    );
    assert_eq!(
        ids_of(torn, 1, Some(2), 4),
        (vec![1], ReadRangeResult::Complete)
    );

    // Nothing could be read of the only entry that was asked for.
    let one = old_file(0, &[(0, b"zero")]);
    assert_eq!(
        ids_of(&one[..one.len() - 4], 0, Some(0), 1),
        (
            vec![],
            ReadRangeResult::PartialRead {
                last_read_id: None,
                last_id_in_file: id(0),
            }
        )
    );
}

#[test]
fn headers_are_read_or_said_to_be_missing() {
    let f = file(9, &[b"x"]);
    assert_eq!(read_wal_header(&f, &id(1)).unwrap().num_entries_before, id(9));
    assert_eq!(
        get_wal_header(&Bytes::from(f.clone())).unwrap().num_entries_before,
        id(9)
    );
    assert_eq!(read_wal_header(&[], &id(4)), Err(WalError::WalEmpty(id(4))));
    assert_eq!(
        read_wal_header(&f[..9], &id(4)),
        Err(WalError::WalEmpty(id(4)))
    );
    assert!(matches!(
        read_wal_header(&[7; 40], &id(4)),
        Err(WalError::AnyWalHeaderError(_))
    ));
    assert!(read_wal_file_range(
        Bytes::copy_from_slice(&f[..9]),
        &id(0),
        &None,
        1,
        DataSource::DiskWal
    )
    .is_err());
}

#[test]
fn entry_headers_of_the_first_format_state_their_errors() {
    let header = WalHeader::new(1, 1, id(0)).unwrap();
    let mut out = BytesMut::new();
    assert!(WalEntryHeader::new(id(300), b"x")
        .write_to_bytes(&mut out, &header)
        .is_err());
    assert_eq!(
        WalEntryHeader::from_bytes(&[0; 5], &header),
        Err(WalEntryError::SliceTooShort)
    );
    assert_eq!(
        WalEntryHeader::from_bytes(&[1; 20], &header),
        Err(WalEntryError::UnsupportedVersion(0x0101_0101_0101_0101))
    );
}
