//! The entry framing of current log files.
//!
//! An entry is its record's size as a varint, the record, and the CRC-32C of
//! both as four little-endian bytes. The entry's id is not stored: it is the
//! file's first id plus the entry's position.

use bytes::BytesMut;
use vstd::prelude::*;
use vstd::slice::slice_subrange;
use crate::buf;
use crate::crc32c;
use crate::varint;
use crate::varint::VarintError;
use crate::words;

verus! {

/// The bytes of the checksum behind a record.
pub const WAL_ENTRY_V1_CRC_SIZE: usize = 4;

/// The size of an entry with an empty record.
pub const WAL_ENTRY_V1_MIN_SIZE: usize = 5;

/// The most bytes an entry takes besides its record.
pub const WAL_ENTRY_V1_MAX_OVERHEAD: usize = 9;

#[derive(Debug, Clone, Copy, PartialEq, Eq, Structural)]
pub enum WalEntryV1Error {
    /// The input ends before the entry does.
    Truncated,
    /// The record size does not fit in a `u32`.
    Overflow,
    /// The record size has a shorter encoding.
    NonCanonical,
    /// The checksum is not that of the size and the record.
    CrcMismatch,
    /// The entry's id does not fit in a `u64`.
    IdOverflow,
    /// The record is longer than an entry can state.
    RecordTooLarge(usize),
}

/// One entry of a current log file.
#[derive(Debug, Clone, Copy, PartialEq, Eq)]
pub struct WalEntryV1<'a> {
    pub record: &'a [u8],
}

/// The size and the record, which the checksum covers.
pub open spec fn frame(record: Seq<u8>) -> Seq<u8> {
    varint::varint(record.len()) + record
}

/// The bytes of the entry that holds `record`.
pub open spec fn entry(record: Seq<u8>) -> Seq<u8> {
    frame(record) + words::bytes32(crc32c::crc32c_of(0, frame(record)))
}

/// Which entry error a failed size is.
pub open spec fn size_error(e: VarintError) -> WalEntryV1Error {
    match e {
        VarintError::Truncated => WalEntryV1Error::Truncated,
        VarintError::Overflow => WalEntryV1Error::Overflow,
        VarintError::NonCanonical => WalEntryV1Error::NonCanonical,
    }
}

/// What reading an entry off the front of `data` yields: its record and how
/// many bytes the entry took.
#[verifier::opaque]
pub open spec fn parse(data: Seq<u8>) -> Result<(Seq<u8>, nat), WalEntryV1Error> {
    match varint::outcome32(data) {
        Err(e) => Err(size_error(e)),
        Ok((size, n)) => if data.len() < n + size + 4 {
            Err(WalEntryV1Error::Truncated)
        } else if words::word32(data, (n + size) as int) != crc32c::crc32c_of(
            0,
            data.take((n + size) as int),
        ) {
            Err(WalEntryV1Error::CrcMismatch)
        } else {
            Ok((data.subrange(n as int, (n + size) as int), n + size + 4))
        },
    }
}

/// What reading the entry at position `index` of a file whose first id is
/// `base` yields: its record, its id and how many bytes it took.
pub open spec fn parse_at(data: Seq<u8>, base: u64, index: u64) -> Result<
    (Seq<u8>, u64, nat),
    WalEntryV1Error,
> {
    match parse(data) {
        Err(e) => Err(e),
        Ok((record, n)) => if base + index > u64::MAX {
            Err(WalEntryV1Error::IdOverflow)
        } else {
            Ok((record, (base + index) as u64, n))
        },
    }
}

pub proof fn lemma_entry_len(record: Seq<u8>)
    requires
        record.len() <= u32::MAX,
    ensures
        1 <= varint::varint(record.len()).len() <= 5,
        entry(record).len() == varint::varint(record.len()).len() + record.len() + 4,
{
    varint::lemma_base128_values();
    varint::lemma_varint_len(record.len(), 5);
    words::lemma_bytes32_len(crc32c::crc32c_of(0, frame(record)));
}

/// A written entry reads back as its record, whatever follows it.
pub proof fn entry_roundtrip(record: Seq<u8>, rest: Seq<u8>)
    requires
        record.len() <= u32::MAX,
    ensures
        parse(entry(record) + rest) == Ok::<(Seq<u8>, nat), WalEntryV1Error>(
            (record, entry(record).len()),
        ),
{
    reveal(parse);
    let data = entry(record) + rest;
    let p = varint::varint(record.len());
    let crc = crc32c::crc32c_of(0, frame(record));
    lemma_entry_len(record);
    words::lemma_bytes32_len(crc);
    let behind = record + words::bytes32(crc) + rest;
    assert(data =~= p + behind);
    varint::varint_roundtrip(record.len(), behind, 5, 15);
    let end = (p.len() + record.len()) as int;
    assert(data.take(end) =~= frame(record));
    assert(data.subrange(end, end + 4) =~= words::bytes32(crc));
    words::lemma_word32_of_bytes32(crc, data, end);
    assert(data.subrange(p.len() as int, end) =~= record);
}

/// Every proper prefix of an entry is cut short, not misread.
pub proof fn entry_prefix_is_truncated(record: Seq<u8>, k: int)
    requires
        record.len() <= u32::MAX,
        0 <= k < entry(record).len(),
    ensures
        parse(entry(record).take(k)) == Err::<(Seq<u8>, nat), WalEntryV1Error>(
            WalEntryV1Error::Truncated,
        ),
{
    reveal(parse);
    let p = varint::varint(record.len());
    let data = entry(record).take(k);
    lemma_entry_len(record);
    if k < p.len() {
        assert(data =~= p.take(k));
        varint::varint_prefix_is_truncated(record.len(), k, 5, 15);
    } else {
        let behind = data.skip(p.len() as int);
        assert(data =~= p + behind);
        varint::varint_roundtrip(record.len(), behind, 5, 15);
    }
}

/// An accepted entry is, byte for byte, the one that holds its record.
pub proof fn entry_is_canonical(data: Seq<u8>)
    requires
        parse(data) is Ok,
    ensures
        ({
            let (record, n) = parse(data)->Ok_0;
            &&& record.len() <= u32::MAX
            &&& n <= data.len()
            &&& data.take(n as int) == entry(record)
        }),
{
    reveal(parse);
    let (size, n) = varint::outcome32(data)->Ok_0;
    varint::varint_is_canonical(data, 5, 15);
    varint::lemma_outcome_bounds(data, 5, 15);
    let end = (n + size) as int;
    let record = data.subrange(n as int, end);
    words::lemma_bytes32_of_word32(data, end);
    assert(data.take(end) =~= data.take(n as int) + record);
    assert(data.take(end + 4) =~= data.take(end) + data.subrange(end, end + 4));
}

/// Changing any one byte of an entry's record, or of its checksum, is reported
/// as a checksum mismatch, whatever follows the entry.
pub proof fn entry_corruption_is_detected(record: Seq<u8>, rest: Seq<u8>, i: int, b: u8)
    requires
        record.len() <= u32::MAX,
        varint::varint(record.len()).len() <= i < entry(record).len(),
        entry(record)[i] != b,
    ensures
        parse(entry(record).update(i, b) + rest) == Err::<(Seq<u8>, nat), WalEntryV1Error>(
            WalEntryV1Error::CrcMismatch,
        ),
{
    reveal(parse);
    let p = varint::varint(record.len());
    let good = entry(record);
    let bad = good.update(i, b);
    let data = bad + rest;
    let crc = crc32c::crc32c_of(0, frame(record));
    lemma_entry_len(record);
    words::lemma_bytes32_len(crc);
    let end = (p.len() + record.len()) as int;
    let behind = data.skip(p.len() as int);
    assert(data =~= p + behind);
    varint::varint_roundtrip(record.len(), behind, 5, 15);
    if i < end {
        assert(data.take(end) =~= frame(record).update(i, b));
        crc32c::crc32c_detects_one_byte(0, frame(record), i, b);
        assert(data.subrange(end, end + 4) =~= words::bytes32(crc));
        words::lemma_word32_of_bytes32(crc, data, end);
    } else {
        assert(data.take(end) =~= frame(record));
        if words::word32(data, end) == crc {
            words::lemma_bytes32_of_word32(data, end);
            assert(data.subrange(end, end + 4)[i - end] == b);
            assert(words::bytes32(crc)[i - end] == good[i]);
        }
    }
}

/// The size of the entry that holds a record of `record_size` bytes.
pub fn encoded_len(record_size: u32) -> (n: usize)
    requires
        record_size + WAL_ENTRY_V1_MAX_OVERHEAD <= usize::MAX,
    ensures
        n == varint::varint(record_size as nat).len() + record_size + 4,
        record_size + WAL_ENTRY_V1_MIN_SIZE <= n <= record_size + WAL_ENTRY_V1_MAX_OVERHEAD,
{
    proof {
        varint::lemma_base128_values();
        varint::lemma_varint_len(record_size as nat, 5);
    }
    let prefix: usize = varint::encoded_len_u64(record_size as u64);
    prefix + record_size as usize + WAL_ENTRY_V1_CRC_SIZE
}

/// The id of the entry at position `index` of a file whose first id is
/// `num_entries_before`.
pub fn derive_entry_id(num_entries_before: u64, index: u64) -> (res: Result<u64, WalEntryV1Error>)
    ensures
        match res {
            Ok(id) => id == num_entries_before + index,
            Err(e) => num_entries_before + index > u64::MAX && e == WalEntryV1Error::IdOverflow,
        },
{
    match num_entries_before.checked_add(index) {
        Some(id) => Ok(id),
        None => Err(WalEntryV1Error::IdOverflow),
    }
}

fn map_size_error(e: VarintError) -> (res: WalEntryV1Error)
    ensures
        res == size_error(e),
{
    match e {
        VarintError::Truncated => WalEntryV1Error::Truncated,
        VarintError::Overflow => WalEntryV1Error::Overflow,
        VarintError::NonCanonical => WalEntryV1Error::NonCanonical,
    }
}

/// Appends the entry that holds `record`.
pub(crate) fn push_entry(out: &mut Vec<u8>, record: &[u8])
    requires
        record@.len() <= u32::MAX,
    ensures
        final(out)@ == old(out)@ + entry(record@),
{
    let ghost start = out@;
    let mut framed: Vec<u8> = Vec::new();
    varint::push_u64(&mut framed, record.len() as u64);
    words::push_slice(&mut framed, record);
    assert(framed@ =~= frame(record@));
    let crc: u32 = crc32c::crc32c(0, framed.as_slice());
    words::push_u32(&mut framed, crc);
    words::push_slice(out, framed.as_slice());
    assert(out@ =~= start + entry(record@));
}

impl<'a> WalEntryV1<'a> {
    pub fn new(record: &'a [u8]) -> (res: Self)
        ensures
            res.record@ == record@,
    {
        WalEntryV1 { record }
    }

    /// How many bytes the entry takes.
    pub fn size(&self) -> (res: Result<usize, WalEntryV1Error>)
        requires
            self.record@.len() + WAL_ENTRY_V1_MAX_OVERHEAD <= usize::MAX,
        ensures
            match res {
                Ok(n) => self.record@.len() <= u32::MAX && n == entry(self.record@).len(),
                Err(e) => self.record@.len() > u32::MAX && e == WalEntryV1Error::RecordTooLarge(
                    self.record@.len() as usize,
                ),
            },
    {
        let len: usize = self.record.len();
        if len > 0xFFFF_FFFF {
            return Err(WalEntryV1Error::RecordTooLarge(len));
        }
        proof {
            lemma_entry_len(self.record@);
        }
        Ok(encoded_len(len as u32))
    }

    /// Appends the entry to `dest` and says how many bytes that took.
    pub fn write_to_bytes(&self, dest: &mut BytesMut) -> (res: Result<usize, WalEntryV1Error>)
        requires
            buf::has_room(*old(dest), self.record@.len() + WAL_ENTRY_V1_MAX_OVERHEAD as nat),
        ensures
            match res {
                Ok(n) => {
                    &&& self.record@.len() <= u32::MAX
                    &&& n == entry(self.record@).len()
                    &&& buf::buffer_of(*final(dest)) == buf::buffer_of(*old(dest)) + entry(
                        self.record@,
                    )
                },
                Err(e) => {
                    &&& self.record@.len() > u32::MAX
                    &&& e == WalEntryV1Error::RecordTooLarge(self.record@.len() as usize)
                    &&& buf::buffer_of(*final(dest)) == buf::buffer_of(*old(dest))
                },
            },
    {
        let len: usize = self.record.len();
        if len > 0xFFFF_FFFF {
            return Err(WalEntryV1Error::RecordTooLarge(len));
        }
        proof {
            lemma_entry_len(self.record@);
        }
        let mut out: Vec<u8> = Vec::new();
        push_entry(&mut out, self.record);
        assert(out@ =~= entry(self.record@));
        buf::buffer_extend(dest, out.as_slice());
        Ok(out.len())
    }

    /// Reads an entry off the front of `data` and says how many bytes it took.
    pub fn from_bytes(data: &'a [u8]) -> (res: Result<(WalEntryV1<'a>, usize), WalEntryV1Error>)
        ensures
            match (res, parse(data@)) {
                (Ok((e, n)), Ok((record, m))) => e.record@ == record && n == m && n
                    <= data@.len(),
                (Err(e), Err(f)) => e == f,
                _ => false,
            },
    {
        proof {
            reveal(parse);
        }
        let (size, prefix): (u32, usize) = match varint::decode_u32(data) {
            Ok(v) => v,
            Err(e) => {
                return Err(map_size_error(e));
            },
        };
        let rest: usize = data.len() - prefix;
        if rest < WAL_ENTRY_V1_CRC_SIZE || rest - WAL_ENTRY_V1_CRC_SIZE < size as usize {
            return Err(WalEntryV1Error::Truncated);
        }
        let end: usize = prefix + size as usize;
        let stored: u32 = words::read_u32(data, end);
        let framed = slice_subrange(data, 0, end);
        assert(framed@ =~= data@.take(end as int));
        if crc32c::crc32c(0, framed) != stored {
            return Err(WalEntryV1Error::CrcMismatch);
        }
        Ok((WalEntryV1 { record: slice_subrange(data, prefix, end) }, end + WAL_ENTRY_V1_CRC_SIZE))
    }

    /// Reads the entry at position `index` of a file whose first id is
    /// `num_entries_before`, and gives its id along with it.
    pub fn iter_next(data: &'a [u8], num_entries_before: u64, index: u64) -> (res: Result<
        (WalEntryV1<'a>, u64, usize),
        WalEntryV1Error,
    >)
        ensures
            match (res, parse_at(data@, num_entries_before, index)) {
                (Ok((e, id, n)), Ok((record, i, m))) => e.record@ == record && id == i && n == m
                    && n <= data@.len(),
                (Err(e), Err(f)) => e == f,
                _ => false,
            },
    {
        match WalEntryV1::from_bytes(data) {
            Ok((e, n)) => match derive_entry_id(num_entries_before, index) {
                Ok(id) => Ok((e, id, n)),
                Err(e) => Err(e),
            },
            Err(e) => Err(e),
        }
    }
}

} // verus!
