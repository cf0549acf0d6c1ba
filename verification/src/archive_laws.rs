//! What archiving a log file keeps of it.

use vstd::prelude::*;
use crate::ranges;
use crate::ranges::RangeStoreError;
use crate::reader;
use crate::store;
use crate::store::{PayloadView, StoreError};
use crate::store_header::{StoreView, SIGNATURE_SIZE};
use crate::store_header_v1;
use crate::store_header_v1::StoreHeaderV1Error;
use crate::types::{CompressionType, EncryptionType};
use crate::wal_entry_v1;
use crate::wal_file;
use crate::wal_header::HeaderView;
use crate::wal_header_v1;
use crate::wal_header_v1::{WalHeaderV1, WalHeaderV1Error};

verus! {

/// A header that was converted to the current format states what it stated
/// before, field by field. Only a counter that the format cannot hold stops
/// it.
pub proof fn converted_header_states_the_same(v: StoreView)
    ensures
        store_header_v1::converted(v) matches Ok(h) ==> {
            &&& h@ == v
            &&& h.compression == v.compression
            &&& h.encryption == v.encryption
            &&& h.num_entries_before == v.num_entries_before
            &&& h.num_entries == v.num_entries
        },
        store_header_v1::converted(v) is Ok <==> v.num_entries_before <= u64::MAX && v.num_entries
            <= u64::MAX,
        store_header_v1::converted(v) matches Err(e) ==> e == StoreHeaderV1Error::ValueTooLarge,
{
}

/// Reading the header that an archived file is given yields the compression,
/// the encryption, the entries before it and the number of entries that it was
/// made of, whatever follows it.
pub proof fn archived_header_states_what_was_given(
    compression: CompressionType,
    encryption: EncryptionType,
    entries_before: nat,
    num_entries: nat,
    rest: Seq<u8>,
)
    requires
        entries_before <= u64::MAX,
        num_entries <= u64::MAX,
    ensures
        ({
            let given = store::store_view(compression, encryption, entries_before, num_entries);
            store_header_v1::converted(given) matches Ok(h) && {
                let bytes = store_header_v1::header_bytes(h);
                store_header_v1::parse_any(bytes + rest) matches Ok((read, n)) && {
                    &&& read.version == 1
                    &&& read.header.compression == compression
                    &&& read.header.encryption == encryption
                    &&& read.header.num_entries_before == entries_before
                    &&& read.header.num_entries == num_entries
                    &&& n == bytes.len()
                }
            }
        }),
{
    let given = store::store_view(compression, encryption, entries_before, num_entries);
    let h = store_header_v1::converted(given)->Ok_0;
    store_header_v1::header_roundtrip(h, rest);
}

/// A log header that was converted to the current format states what it stated
/// before. Only a counter that the format cannot hold, or a width that a field
/// cannot have, stops it.
pub proof fn converted_log_header_states_the_same(v: HeaderView)
    ensures
        wal_header_v1::converted(v) matches Ok(h) ==> {
            &&& h@ == v
            &&& h.data_size_bytes == v.data_size_bytes
            &&& h.id_size_bytes == v.id_size_bytes
            &&& h.num_entries_before == v.num_entries_before
        },
        wal_header_v1::converted(v) is Ok <==> {
            &&& v.num_entries_before <= u64::MAX
            &&& seq![1u64, 2, 4, 8, 16].contains(v.data_size_bytes)
            &&& seq![1u64, 2, 4, 8, 16].contains(v.id_size_bytes)
        },
        v.num_entries_before > u64::MAX ==> wal_header_v1::converted(v) == Err::<
            WalHeaderV1,
            WalHeaderV1Error,
        >(WalHeaderV1Error::ValueTooLarge),
        v.num_entries_before <= u64::MAX ==> (wal_header_v1::converted(v) matches Err(e) ==> e
            == WalHeaderV1Error::InvalidDataSizeBytes(v.data_size_bytes) || e
            == WalHeaderV1Error::InvalidIdSizeBytes(v.id_size_bytes)),
{
    let widths = seq![1u64, 2, 4, 8, 16];
    assert(widths[0] == 1 && widths[1] == 2 && widths[2] == 4 && widths[3] == 8 && widths[4] == 16);
    assert(widths.len() == 5);
}

/// Reading the header that a log file is given yields the field widths and the
/// entries before it that it was made of, whatever follows it.
pub proof fn log_header_states_what_was_given(v: HeaderView, rest: Seq<u8>)
    requires
        wal_header_v1::converted(v) is Ok,
    ensures
        ({
            let h = wal_header_v1::converted(v)->Ok_0;
            let bytes = wal_header_v1::header_bytes(h);
            wal_header_v1::parse_any(bytes + rest) matches Ok((read, n)) && {
                &&& read.version == 1
                &&& read.header.data_size_bytes == v.data_size_bytes
                &&& read.header.id_size_bytes == v.id_size_bytes
                &&& read.header.num_entries_before == v.num_entries_before
                &&& n == bytes.len()
            }
        }),
{
    wal_header_v1::header_roundtrip(wal_header_v1::converted(v)->Ok_0, rest);
}

/// The range that is read from an archived file is that of the entries in the
/// log file that it was made of: a range read of the archive's header and one
/// of the log give the same first and last id.
pub proof fn archived_range_is_that_of_the_log(
    h: WalHeaderV1,
    records: Seq<Seq<u8>>,
    tail: Seq<u8>,
    compression: CompressionType,
    encryption: EncryptionType,
    header_signature: Seq<u8>,
    content_signature: Seq<u8>,
    content: Seq<u8>,
)
    requires
        wal_header_v1::width_error(h) is None,
        wal_file::writable(records),
        wal_file::ids_fit(h, records.len()),
        records.len() <= u64::MAX,
        wal_entry_v1::parse(tail) is Err,
        header_signature.len() == SIGNATURE_SIZE,
        content_signature.len() == SIGNATURE_SIZE,
    ensures
        ({
            let log = wal_header_v1::header_bytes(h) + wal_file::packed(records) + tail;
            let n = wal_header_v1::header_bytes(h).len();
            let given = store::store_view(
                compression,
                encryption,
                h.num_entries_before as nat,
                records.len(),
            );
            let header = store_header_v1::header_bytes(store_header_v1::converted(given)->Ok_0);
            let file = store::store_file(header_signature, content_signature, header, content);
            ranges::parse_front(file) matches Ok(front) && {
                &&& ranges::range_of(front.header) == reader::ends(
                    reader::entries(log, wal_file::v1_view(h), n, 0),
                )
                &&& records.len() == 0 ==> ranges::range_of(front.header) is None
                &&& records.len() > 0 ==> ranges::range_of(front.header) == Some(
                    (
                        h.num_entries_before as nat,
                        (h.num_entries_before + records.len() - 1) as nat,
                    ),
                )
            }
        }),
{
    let given = store::store_view(
        compression,
        encryption,
        h.num_entries_before as nat,
        records.len(),
    );
    wal_file::written_file_reads_back(h, records, tail);
    let g = store_header_v1::converted(given)->Ok_0;
    store::archived_file_reads_back(header_signature, content_signature, g, content);
}

/// Content that is not compressed is taken as it is, and compressed content
/// never is. What can be written is read by the method that it was written by.
pub proof fn each_compression_has_its_method(c: CompressionType)
    ensures
        store::codec_of(c) is AsIs <==> c is NoCompression,
        store::codec_of(c) is Xz <==> c is Xz,
        store::codec_of(c) is Zstd <==> c is Zstd || c is Gzip,
        store::written_with(c) is Some <==> c is NoCompression || c is Zstd,
        store::written_with(c) is Some ==> store::written_with(c) == Some(store::codec_of(c)),
{
}

/// Content is split into a nonce and what was encrypted with it, with nothing
/// lost, or handed on whole. Only encrypted content that is too short for a
/// nonce is refused.
pub proof fn payload_is_the_whole_content(encryption: EncryptionType, content: Seq<u8>)
    ensures
        match store::payload_of(encryption, content) {
            Ok(PayloadView::Plain(d)) => encryption is NoEncryption && d == content,
            Ok(PayloadView::Encrypted { nonce, ciphertext }) => {
                &&& !(encryption is NoEncryption)
                &&& nonce.len() == 12
                &&& nonce + ciphertext == content
            },
            Err(e) => {
                &&& !(encryption is NoEncryption)
                &&& content.len() < 12
                &&& e == StoreError::Decrypt
            },
        },
{
    if content.len() >= 12 {
        assert(content.take(12) + content.skip(12) =~= content);
    }
}

/// Every error that reading the front of an archived file gives is reported,
/// and different ones differently.
pub proof fn front_errors_are_told_apart(a: RangeStoreError, b: RangeStoreError)
    ensures
        store::front_error(a) == store::front_error(b) ==> a == b,
{
}

/// A log file is deleted once all steps before that have succeeded, whether or
/// not its range could be recorded, and then nothing more is done. One that
/// failed before that leaves the log file where it is for good.
pub proof fn archived_log_is_deleted(recorded: bool, deleted: bool, failed: nat, more: Seq<bool>)
    requires
        failed < 4,
    ensures
        store::step_after_all(seq![true, true, true, true, recorded]) is DeleteLog,
        store::step_after_all(seq![true, true, true, true, recorded, deleted] + more) is Finished,
        store::step_after_all(Seq::new(failed, |i: int| true).push(false) + more) is Stopped,
{
    lemma_steps_forward(5, seq![true, true, true, true, recorded]);
    lemma_steps_forward(6, seq![true, true, true, true, recorded, deleted]);
    lemma_ended(seq![true, true, true, true, recorded, deleted], more);
    let good = Seq::new(failed, |i: int| true);
    lemma_steps_forward(failed, good);
    assert(good.push(false).drop_last() =~= good);
    lemma_ended(good.push(false), more);
}

proof fn lemma_steps_forward(n: nat, results: Seq<bool>)
    requires
        n <= 6,
        results.len() == n,
        forall|i: int| 0 <= i < n && i < 4 ==> #[trigger] results[i],
    ensures
        n == 0 ==> store::step_after_all(results) is ReadLog,
        n == 1 ==> store::step_after_all(results) is CompressAndEncrypt,
        n == 2 ==> store::step_after_all(results) is WriteStore,
        n == 3 ==> store::step_after_all(results) is FindLastId,
        n == 4 ==> store::step_after_all(results) is RecordRange,
        n == 5 ==> store::step_after_all(results) is DeleteLog,
        n == 6 ==> store::step_after_all(results) is Finished,
    decreases n,
{
    if n > 0 {
        assert(results[n - 1] == results.last());
        lemma_steps_forward((n - 1) as nat, results.drop_last());
    }
}

proof fn lemma_ended(results: Seq<bool>, more: Seq<bool>)
    requires
        store::step_after_all(results) is Finished || store::step_after_all(results) is Stopped,
    ensures
        store::step_after_all(results + more) == store::step_after_all(results),
    decreases more.len(),
{
    if more.len() == 0 {
        assert(results + more =~= results);
    } else {
        lemma_ended(results, more.drop_last());
        assert((results + more).drop_last() =~= results + more.drop_last());
    }
}

/// What is wrong with the front of an archived file is reported as it is: as an
/// error of its signature block, of its header, or of finding it.
pub proof fn front_errors_keep_their_cause(e: RangeStoreError)
    ensures
        e matches RangeStoreError::Header(h) ==> store::front_error(e) == StoreError::Header(h),
        e matches RangeStoreError::AnyHeader(h) ==> store::front_error(e) == StoreError::AnyHeader(
            h,
        ),
        !(e is Header) && !(e is AnyHeader) ==> store::front_error(e) == StoreError::Range(e),
{
}

} // verus!
