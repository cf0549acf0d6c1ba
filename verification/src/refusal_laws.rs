//! What is refused, and as what.

use vstd::prelude::*;
use crate::crc32c;
use crate::ranges;
use crate::ranges::RangeStoreError;
use crate::reader;
use crate::reader::{RangeOutcome, WalErrorView};
use crate::store_header;
use crate::store_header::{StoreHeaderError, StoreView};
use crate::store_header_v1;
use crate::store_header_v1::{AnyStoreHeaderError, AnyStoreView, RawFields, StoreHeaderV1};
use crate::store_header_v1::StoreHeaderV1Error;
use crate::uintn::UintNError;
use crate::varint;
use crate::varint::VarintError;
use crate::wal_entry;
use crate::wal_entry::WalEntryError;
use crate::wal_entry_v1;
use crate::wal_entry_v1::WalEntryV1Error;
use crate::wal_header;
use crate::wal_header::{HeaderView, WalHeaderError};
use crate::wal_header_v1;
use crate::wal_header_v1::{AnyHeaderView, AnyWalHeaderError, WalHeaderV1, WalHeaderV1Error};
use crate::words;

verus! {

/// Whether a field can be this many bytes wide.
pub open spec fn is_width(w: u64) -> bool {
    w == 1 || w == 2 || w == 4 || w == 8 || w == 16
}

proof fn lemma_word(v: u64, rest: Seq<u8>)
    ensures
        (words::bytes64(v) + rest).len() == 8 + rest.len(),
        words::word64(words::bytes64(v) + rest, 0) == v,
{
    let data = words::bytes64(v) + rest;
    words::lemma_bytes64_len(v);
    assert(data.subrange(0, 8) =~= words::bytes64(v));
    words::lemma_word64_of_bytes64(v, data, 0);
}

/// A header or an entry of a version that is not known is refused as that,
/// whatever follows its version.
pub proof fn unknown_version_is_refused(v: u64, rest: Seq<u8>, h: HeaderView)
    ensures
        ({
            let data = words::bytes64(v) + rest;
            &&& v != 0 ==> {
                &&& wal_header::parse(data) == Err::<(HeaderView, nat), WalHeaderError>(
                    WalHeaderError::UnsupportedVersion(v),
                )
                &&& wal_entry::parse(data, h) == Err::<wal_entry::EntryView, WalEntryError>(
                    WalEntryError::UnsupportedVersion(v),
                )
                &&& store_header::parse(data) == Err::<(StoreView, nat), StoreHeaderError>(
                    StoreHeaderError::UnsupportedVersion(v),
                )
                &&& store_header::parse_authentication(data) == Err::<
                    (Seq<u8>, Seq<u8>),
                    StoreHeaderError,
                >(StoreHeaderError::UnsupportedVersion(v))
            }
            &&& v != 1 ==> {
                &&& wal_header_v1::parse(data) == Err::<(WalHeaderV1, nat), WalHeaderV1Error>(
                    WalHeaderV1Error::UnsupportedVersion(v),
                )
                &&& store_header_v1::parse(data) == Err::<
                    (StoreHeaderV1, nat),
                    StoreHeaderV1Error,
                >(StoreHeaderV1Error::UnsupportedVersion(v))
            }
            &&& v > 1 ==> {
                &&& wal_header_v1::parse_any(data) == Err::<
                    (AnyHeaderView, nat),
                    AnyWalHeaderError,
                >(AnyWalHeaderError::V1(WalHeaderV1Error::UnsupportedVersion(v)))
                &&& store_header_v1::parse_any(data) == Err::<
                    (AnyStoreView, nat),
                    AnyStoreHeaderError,
                >(AnyStoreHeaderError::V1(StoreHeaderV1Error::UnsupportedVersion(v)))
            }
        }),
{
    lemma_word(v, rest);
}

/// A log header with a width that a field cannot have is refused, with that
/// width.
pub proof fn wrong_width_is_refused(h: WalHeaderV1, rest: Seq<u8>)
    ensures
        ({
            let read = wal_header_v1::parse(wal_header_v1::header_bytes(h) + rest);
            &&& !is_width(h.data_size_bytes) ==> read == Err::<
                (WalHeaderV1, nat),
                WalHeaderV1Error,
            >(WalHeaderV1Error::InvalidDataSizeBytes(h.data_size_bytes))
            &&& is_width(h.data_size_bytes) && !is_width(h.id_size_bytes) ==> read == Err::<
                (WalHeaderV1, nat),
                WalHeaderV1Error,
            >(WalHeaderV1Error::InvalidIdSizeBytes(h.id_size_bytes))
            &&& is_width(h.data_size_bytes) && is_width(h.id_size_bytes) ==> read is Ok
        }),
{
    let p = varint::varint(h.data_size_bytes as nat);
    let q = varint::varint(h.id_size_bytes as nat);
    let r = varint::varint(h.num_entries_before as nat);
    let data = wal_header_v1::header_bytes(h) + rest;
    let a = (8 + p.len()) as nat;
    let b = a + q.len();
    let c = b + r.len();
    assert(data =~= words::bytes64(1) + (p + q + r + rest));
    lemma_word(1, p + q + r + rest);
    words::lemma_bytes64_len(1);
    assert(data.subrange(8, a as int) =~= p);
    assert(data.subrange(a as int, b as int) =~= q);
    assert(data.subrange(b as int, c as int) =~= r);
    varint::lemma_field_written(data, 8, h.data_size_bytes);
    varint::lemma_field_written(data, a, h.id_size_bytes);
    varint::lemma_field_written(data, b, h.num_entries_before);
}

proof fn lemma_second_word(u: u64, v: u64, rest: Seq<u8>)
    ensures
        words::word64(words::bytes64(u) + words::bytes64(v) + rest, 8) == v,
{
    let data = words::bytes64(u) + words::bytes64(v) + rest;
    words::lemma_bytes64_len(u);
    words::lemma_bytes64_len(v);
    assert(data.subrange(8, 16) =~= words::bytes64(v));
    words::lemma_word64_of_bytes64(v, data, 8);
}

proof fn lemma_third_word(t: u64, u: u64, v: u64, rest: Seq<u8>)
    ensures
        words::word64(words::bytes64(t) + words::bytes64(u) + words::bytes64(v) + rest, 16) == v,
{
    let data = words::bytes64(t) + words::bytes64(u) + words::bytes64(v) + rest;
    words::lemma_bytes64_len(t);
    words::lemma_bytes64_len(u);
    words::lemma_bytes64_len(v);
    assert(data.subrange(16, 24) =~= words::bytes64(v));
    words::lemma_word64_of_bytes64(v, data, 16);
}

/// A log header of the first format with a width that a field or a counter
/// cannot have is refused, with that width.
pub proof fn wrong_old_width_is_refused(d: u64, i: u64, w: u64, rest: Seq<u8>)
    ensures
        ({
            let data = words::bytes64(0) + words::bytes64(d) + words::bytes64(i) + (words::bytes64(
                w,
            ) + rest);
            let read = wal_header::parse(data);
            &&& !is_width(d) ==> read == Err::<(HeaderView, nat), WalHeaderError>(
                WalHeaderError::InvalidDataSizeBytes(d),
            )
            &&& is_width(d) && !is_width(i) ==> read == Err::<(HeaderView, nat), WalHeaderError>(
                WalHeaderError::InvalidIdSizeBytes(i),
            )
            &&& is_width(d) && is_width(i) && !is_width(w) ==> read == Err::<
                (HeaderView, nat),
                WalHeaderError,
            >(WalHeaderError::UintN(UintNError::InvalidSize(w)))
            &&& is_width(d) && is_width(i) && is_width(w) ==> (read == Err::<
                (HeaderView, nat),
                WalHeaderError,
            >(WalHeaderError::SliceTooShort) <==> rest.len() < w)
        }),
{
    let tail = words::bytes64(w) + rest;
    let data = words::bytes64(0) + words::bytes64(d) + words::bytes64(i) + tail;
    words::lemma_bytes64_len(0);
    words::lemma_bytes64_len(d);
    words::lemma_bytes64_len(i);
    words::lemma_bytes64_len(w);
    assert(data =~= words::bytes64(0) + (words::bytes64(d) + words::bytes64(i) + tail));
    lemma_word(0, words::bytes64(d) + words::bytes64(i) + tail);
    assert(data =~= words::bytes64(0) + words::bytes64(d) + (words::bytes64(i) + tail));
    lemma_second_word(0, d, words::bytes64(i) + tail);
    lemma_third_word(0, d, i, tail);
    assert(data.subrange(24, 32) =~= words::bytes64(w));
    words::lemma_word64_of_bytes64(w, data, 24);
}

/// The header of an archived file with a code that stands for no compression or
/// encryption is refused, with that code.
pub proof fn unknown_code_is_refused(r: RawFields, rest: Seq<u8>)
    ensures
        ({
            let read = store_header_v1::parse(store_header_v1::raw_bytes(r) + rest);
            &&& r.compression > 3 ==> read == Err::<(StoreHeaderV1, nat), StoreHeaderV1Error>(
                StoreHeaderV1Error::UnsupportedCompression(r.compression),
            )
            &&& r.compression <= 3 && r.encryption > 1 ==> read == Err::<
                (StoreHeaderV1, nat),
                StoreHeaderV1Error,
            >(StoreHeaderV1Error::UnsupportedEncryption(r.encryption))
            &&& r.compression <= 3 && r.encryption <= 1 ==> read is Ok
        }),
{
    let p = varint::varint(r.compression as nat);
    let q = varint::varint(r.encryption as nat);
    let s = varint::varint(r.num_entries_before as nat);
    let t = varint::varint(r.num_entries as nat);
    let data = store_header_v1::raw_bytes(r) + rest;
    let a = (8 + p.len()) as nat;
    let b = a + q.len();
    let c = b + s.len();
    let d = c + t.len();
    assert(data =~= words::bytes64(1) + (p + q + s + t + rest));
    lemma_word(1, p + q + s + t + rest);
    words::lemma_bytes64_len(1);
    assert(data.subrange(8, a as int) =~= p);
    assert(data.subrange(a as int, b as int) =~= q);
    assert(data.subrange(b as int, c as int) =~= s);
    assert(data.subrange(c as int, d as int) =~= t);
    varint::lemma_field_written(data, 8, r.compression);
    varint::lemma_field_written(data, a, r.encryption);
    varint::lemma_field_written(data, b, r.num_entries_before);
    varint::lemma_field_written(data, c, r.num_entries);
}

/// The same of an archived file of the first format.
pub proof fn unknown_old_code_is_refused(c: u64, e: u64, rest: Seq<u8>)
    ensures
        ({
            let data = words::bytes64(0) + words::bytes64(c) + words::bytes64(e) + rest;
            let read = store_header::parse(data);
            &&& c > 3 ==> read == Err::<(StoreView, nat), StoreHeaderError>(
                StoreHeaderError::UnsupportedCompression(c),
            )
            &&& c <= 3 && e > 1 ==> read == Err::<(StoreView, nat), StoreHeaderError>(
                StoreHeaderError::UnsupportedEncryption(e),
            )
        }),
{
    let data = words::bytes64(0) + words::bytes64(c) + words::bytes64(e) + rest;
    words::lemma_bytes64_len(0);
    words::lemma_bytes64_len(c);
    words::lemma_bytes64_len(e);
    assert(data =~= words::bytes64(0) + (words::bytes64(c) + words::bytes64(e) + rest));
    lemma_word(0, words::bytes64(c) + words::bytes64(e) + rest);
    assert(data =~= words::bytes64(0) + words::bytes64(c) + (words::bytes64(e) + rest));
    lemma_second_word(0, c, words::bytes64(e) + rest);
    lemma_third_word(0, c, e, rest);
}

/// A signature block in which a signature is said to have another size than 64
/// bytes is refused, with that size.
pub proof fn wrong_signature_size_is_refused(
    a: u64,
    b: u64,
    header: Seq<u8>,
    content: Seq<u8>,
)
    requires
        header.len() == 64,
        content.len() >= 64,
    ensures
        ({
            let data = words::bytes64(0) + words::bytes64(a) + header + words::bytes64(b) + content;
            let read = store_header::parse_authentication(data);
            &&& a != 64 ==> read == Err::<(Seq<u8>, Seq<u8>), StoreHeaderError>(
                StoreHeaderError::InvalidSignatureSize(a),
            )
            &&& a == 64 && b != 64 ==> read == Err::<(Seq<u8>, Seq<u8>), StoreHeaderError>(
                StoreHeaderError::InvalidSignatureSize(b),
            )
            &&& a == 64 && b == 64 ==> read == Ok::<(Seq<u8>, Seq<u8>), StoreHeaderError>(
                (header, content.take(64)),
            )
        }),
{
    let data = words::bytes64(0) + words::bytes64(a) + header + words::bytes64(b) + content;
    words::lemma_bytes64_len(0);
    words::lemma_bytes64_len(a);
    words::lemma_bytes64_len(b);
    assert(data =~= words::bytes64(0) + (words::bytes64(a) + header + words::bytes64(b) + content));
    lemma_word(0, words::bytes64(a) + header + words::bytes64(b) + content);
    assert(data =~= words::bytes64(0) + words::bytes64(a) + (header + words::bytes64(b) + content));
    lemma_second_word(0, a, header + words::bytes64(b) + content);
    assert(data.subrange(80, 88) =~= words::bytes64(b));
    words::lemma_word64_of_bytes64(b, data, 80);
    assert(data.subrange(16, 80) =~= header);
    assert(data.subrange(88, 152) =~= content.take(64));
}

/// A signature block that is cut short is refused as that.
pub proof fn cut_signatures_are_too_short(header: Seq<u8>, content: Seq<u8>, k: int)
    requires
        header.len() == 64,
        content.len() == 64,
        0 <= k < 152,
    ensures
        store_header::parse_authentication(
            store_header::authentication_bytes(header, content).take(k),
        ) == Err::<(Seq<u8>, Seq<u8>), StoreHeaderError>(StoreHeaderError::SliceTooShort),
        ranges::parse_front(store_header::authentication_bytes(header, content).take(k)) == Err::<
            ranges::FrontView,
            RangeStoreError,
        >(RangeStoreError::Header(StoreHeaderError::SliceTooShort)),
{
    let s = store_header::authentication_bytes(header, content);
    store_header::authentication_roundtrip(header, content, Seq::empty());
    words::lemma_bytes64_len(0);
    if k >= 8 {
        let rest = s.skip(8).take(k - 8);
        assert(s.take(k) =~= words::bytes64(0) + rest);
        lemma_word(0, rest);
    }
}

// ---------------------------------------------------------------------------
// What is cut short.

/// An encoded number is cut short if and only if a last byte completes it; any
/// other number that is refused is refused whatever follows.
pub proof fn cut_number_can_be_completed(data: Seq<u8>, more: Seq<u8>)
    ensures
        varint::outcome64(data) == Err::<(nat, nat), VarintError>(VarintError::Truncated) ==> {
            &&& data.len() < 10
            &&& varint::outcome64(data.push(1)) is Ok
        },
        varint::outcome64(data) is Err && varint::outcome64(data) != Err::<(nat, nat), VarintError>(
            VarintError::Truncated,
        ) ==> varint::outcome64(data + more) == varint::outcome64(data),
{
    varint::lemma_continued(data);
    if varint::outcome64(data) == Err::<(nat, nat), VarintError>(VarintError::Truncated) {
        let s = data.push(1);
        assert(forall|i: int| 0 <= i < data.len() ==> s[i] == data[i]);
        varint::lemma_continued_is(s, data.len());
    } else if varint::outcome64(data) is Err {
        assert(data.skip(0) =~= data);
        assert((data + more).skip(0) =~= data + more);
        varint::lemma_field_stable(data, more, 0);
    }
}

/// A file of 48 bytes or more has all of its header: if that is wrong, the file
/// is not taken for one that is cut short.
pub proof fn long_file_is_not_cut_short(content: Seq<u8>, file_id: nat)
    requires
        content.len() >= 48,
        wal_header_v1::parse_any(content) is Err,
    ensures
        !wal_header_v1::is_incomplete(wal_header_v1::parse_any(content)->Err_0),
        reader::header_outcome(content, file_id) == Err::<HeaderView, WalErrorView>(
            WalErrorView::Header(wal_header_v1::parse_any(content)->Err_0),
        ),
{
    if words::word64(content, 0) == 1 {
        lemma_field_is_there(content, 8);
        if let Ok((_, a)) = varint::field(content, 8) {
            varint::lemma_field_read(content, 8);
            lemma_field_is_there(content, a);
            if let Ok((_, b)) = varint::field(content, a) {
                varint::lemma_field_read(content, a);
                lemma_field_is_there(content, b);
            }
        }
    }
}

proof fn lemma_field_is_there(data: Seq<u8>, at: nat)
    requires
        at + 10 <= data.len(),
    ensures
        varint::field(data, at) != Err::<(u64, nat), VarintError>(VarintError::Truncated),
{
    cut_number_can_be_completed(data.skip(at as int), Seq::empty());
}

/// A file that is empty or cut within its header is reported as empty, under
/// its id.
pub proof fn cut_header_is_reported_as_empty(content: Seq<u8>, file_id: nat)
    requires
        content.len() == 0 || wal_header_v1::lacks_bytes(content),
    ensures
        reader::header_outcome(content, file_id) == Err::<HeaderView, WalErrorView>(
            WalErrorView::Empty(file_id),
        ),
{
}

/// A range read of a file without a whole header. An empty file has nothing to
/// read. One that is cut within its header has nothing to read either, unless a
/// header was required; then, and if the header is wrong, the read says what is
/// wrong with it.
pub proof fn range_read_without_a_header(
    content: Seq<u8>,
    from: nat,
    until: Option<nat>,
    step: usize,
    header_required: bool,
)
    requires
        content.len() == 0 || wal_header_v1::parse_any(content) is Err,
    ensures
        ({
            let q = reader::query(from, until, step);
            let read = reader::range_of(content, q, header_required);
            let cut = content.len() == 0 || (!header_required && wal_header_v1::is_incomplete(
                wal_header_v1::parse_any(content)->Err_0,
            ));
            &&& cut ==> (read matches Ok((d, o)) && d.len() == 0 && o == (RangeOutcome::Partial {
                last_read: None,
                last_in_file: from,
            }))
            &&& !cut ==> read == Err::<(Seq<(nat, Seq<u8>)>, RangeOutcome), AnyWalHeaderError>(
                wal_header_v1::parse_any(content)->Err_0,
            )
        }),
{
}

/// A file that is not there has no range. Any other outcome of looking for one
/// is passed on as it is.
pub proof fn missing_file_has_no_range(r: Result<Option<(nat, nat)>, RangeStoreError>)
    ensures
        r == Err::<Option<(nat, nat)>, RangeStoreError>(RangeStoreError::FileNotFound)
            ==> ranges::settled(r) == Ok::<Option<(nat, nat)>, RangeStoreError>(None),
        r != Err::<Option<(nat, nat)>, RangeStoreError>(RangeStoreError::FileNotFound)
            ==> ranges::settled(r) == r,
{
}

/// A header whose first number is refused is refused for the same reason: it is
/// cut short, too large, or not in its shortest form.
pub proof fn wrong_number_is_refused(rest: Seq<u8>)
    ensures
        ({
            let log = wal_header_v1::parse(words::bytes64(1) + rest);
            let archive = store_header_v1::parse(words::bytes64(1) + rest);
            varint::outcome64(rest) matches Err(e) ==> {
                &&& e is Truncated ==> log == Err::<(WalHeaderV1, nat), WalHeaderV1Error>(
                    WalHeaderV1Error::Truncated,
                ) && archive == Err::<(StoreHeaderV1, nat), StoreHeaderV1Error>(
                    StoreHeaderV1Error::Truncated,
                )
                &&& e is Overflow ==> log == Err::<(WalHeaderV1, nat), WalHeaderV1Error>(
                    WalHeaderV1Error::Overflow,
                ) && archive == Err::<(StoreHeaderV1, nat), StoreHeaderV1Error>(
                    StoreHeaderV1Error::Overflow,
                )
                &&& e is NonCanonical ==> log == Err::<(WalHeaderV1, nat), WalHeaderV1Error>(
                    WalHeaderV1Error::NonCanonical,
                ) && archive == Err::<(StoreHeaderV1, nat), StoreHeaderV1Error>(
                    StoreHeaderV1Error::NonCanonical,
                )
            }
        }),
{
    let data = words::bytes64(1) + rest;
    lemma_word(1, rest);
    words::lemma_bytes64_len(1);
    assert(data.skip(8) =~= rest);
}

/// An entry whose length is refused is refused for the same reason. One that is
/// longer than what is there is cut short, and one whose checksum is another is
/// damaged.
pub proof fn wrong_entry_is_refused(data: Seq<u8>)
    ensures
        ({
            let read = wal_entry_v1::parse(data);
            match varint::outcome32(data) {
                Err(VarintError::Truncated) => read == Err::<(Seq<u8>, nat), WalEntryV1Error>(
                    WalEntryV1Error::Truncated,
                ),
                Err(VarintError::Overflow) => read == Err::<(Seq<u8>, nat), WalEntryV1Error>(
                    WalEntryV1Error::Overflow,
                ),
                Err(VarintError::NonCanonical) => read == Err::<(Seq<u8>, nat), WalEntryV1Error>(
                    WalEntryV1Error::NonCanonical,
                ),
                Ok((len, n)) => {
                    &&& (data.len() < n + len + 4) == (read == Err::<
                        (Seq<u8>, nat),
                        WalEntryV1Error,
                    >(WalEntryV1Error::Truncated))
                    &&& read is Ok || read == Err::<(Seq<u8>, nat), WalEntryV1Error>(
                        WalEntryV1Error::Truncated,
                    ) || read == Err::<(Seq<u8>, nat), WalEntryV1Error>(
                        WalEntryV1Error::CrcMismatch,
                    )
                    &&& data.len() >= n + len + 4 ==> (read is Ok <==> data.subrange(
                        (n + len) as int,
                        (n + len + 4) as int,
                    ) == words::bytes32(crc32c::crc32c_of(0, data.take((n + len) as int))))
                },
            }
        }),
{
    reveal(wal_entry_v1::parse);
    if let Ok((len, n)) = varint::outcome32(data) {
        if data.len() >= n + len + 4 {
            let at = (n + len) as int;
            words::lemma_bytes32_of_word32(data, at);
            let c = crc32c::crc32c_of(0, data.take(at));
            if data.subrange(at, at + 4) == words::bytes32(c) {
                words::lemma_word32_of_bytes32(c, data, at);
            }
        }
    }
}

} // verus!
