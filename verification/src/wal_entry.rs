//! The entry framing of log files of the first format.
//!
//! An entry is a version word, which is zero, the entry's id and its record's
//! size, each as wide as the file header says, and the 64-bit hash of the
//! record; the record follows.

use bytes::BytesMut;
use vstd::prelude::*;
use vstd::slice::slice_subrange;
use crate::buf;
use crate::hash;
use crate::uintn;
use crate::uintn::{UintN, UintNError};
use crate::wal_header::{HeaderView, WalHeader};
use crate::words;

verus! {

/// The bytes of an entry header besides the id and the record size.
pub const WAL_ENTRY_HEADER_FIXED_OVERHEAD: usize = 16;

#[derive(Debug, Clone, Copy, PartialEq, Eq, Structural)]
pub enum WalEntryError {
    /// The input ends before the entry does.
    SliceTooShort,
    UnsupportedVersion(u64),
    UintN(UintNError),
}

/// What precedes a record.
#[derive(Debug, PartialEq, Eq)]
pub struct WalEntryHeader {
    pub entry_id: UintN,
    pub record_size: UintN,
    pub xxhash: u64,
}

/// The contents of an entry header.
pub struct EntryView {
    pub entry_id: nat,
    pub record_size: nat,
    pub xxhash: u64,
}

impl View for WalEntryHeader {
    type V = EntryView;

    open spec fn view(&self) -> EntryView {
        EntryView {
            entry_id: self.entry_id@,
            record_size: self.record_size@,
            xxhash: self.xxhash,
        }
    }
}

/// How many bytes an entry header takes in a file with this header.
pub open spec fn header_len(h: HeaderView) -> nat {
    (16 + h.id_size_bytes + h.data_size_bytes) as nat
}

/// The bytes of an entry header.
pub open spec fn header_bytes(e: EntryView, h: HeaderView) -> Seq<u8> {
    words::bytes64(0) + uintn::le_bytes(e.entry_id, h.id_size_bytes as nat) + uintn::le_bytes(
        e.record_size,
        h.data_size_bytes as nat,
    ) + words::bytes64(e.xxhash)
}

/// The header of the entry that holds `record`.
pub open spec fn header_of(entry_id: nat, record: Seq<u8>) -> EntryView {
    EntryView { entry_id, record_size: record.len(), xxhash: hash::xxh64_of(record, 0) }
}

/// Whether an id and a record size fit the fields of a file.
pub open spec fn fits(e: EntryView, h: HeaderView) -> bool {
    &&& e.entry_id < uintn::radix(h.id_size_bytes as nat)
    &&& e.record_size < uintn::radix(h.data_size_bytes as nat)
}

/// What reading an entry header off the front of `data` yields.
pub open spec fn parse(data: Seq<u8>, h: HeaderView) -> Result<EntryView, WalEntryError> {
    if data.len() < 8 {
        Err(WalEntryError::SliceTooShort)
    } else if words::word64(data, 0) != 0 {
        Err(WalEntryError::UnsupportedVersion(words::word64(data, 0)))
    } else if data.len() < header_len(h) {
        Err(WalEntryError::SliceTooShort)
    } else {
        let a = 8 + h.id_size_bytes as int;
        let b = a + h.data_size_bytes as int;
        Ok(
            EntryView {
                entry_id: uintn::le_value(data.subrange(8, a)),
                record_size: uintn::le_value(data.subrange(a, b)),
                xxhash: words::word64(data, b),
            },
        )
    }
}

/// A written entry header reads back, whatever follows it.
pub proof fn entry_header_roundtrip(e: EntryView, h: HeaderView, rest: Seq<u8>)
    requires
        fits(e, h),
    ensures
        header_bytes(e, h).len() == header_len(h),
        parse(header_bytes(e, h) + rest, h) == Ok::<EntryView, WalEntryError>(e),
{
    let s = header_bytes(e, h);
    let data = s + rest;
    let a = 8 + h.id_size_bytes as int;
    let b = a + h.data_size_bytes as int;
    words::lemma_bytes64_len(0);
    words::lemma_bytes64_len(e.xxhash);
    uintn::lemma_le_bytes_value(e.entry_id, h.id_size_bytes as nat);
    uintn::lemma_le_bytes_value(e.record_size, h.data_size_bytes as nat);
    assert(data.subrange(0, 8) =~= words::bytes64(0));
    words::lemma_word64_of_bytes64(0, data, 0);
    assert(data.subrange(8, a) =~= uintn::le_bytes(e.entry_id, h.id_size_bytes as nat));
    assert(data.subrange(a, b) =~= uintn::le_bytes(e.record_size, h.data_size_bytes as nat));
    assert(data.subrange(b, b + 8) =~= words::bytes64(e.xxhash));
    words::lemma_word64_of_bytes64(e.xxhash, data, b);
}

impl WalEntryHeader {
    /// The header of the entry that holds `record`.
    pub fn new(entry_id: UintN, record: &[u8]) -> (res: Self)
        ensures
            res@ == header_of(entry_id@, record@),
    {
        WalEntryHeader {
            entry_id,
            record_size: UintN::from_u64(record.len() as u64),
            xxhash: hash::xxh64(record, 0),
        }
    }

    /// How many bytes the header takes in a file with this header.
    pub fn size(&self, header: &WalHeader) -> (n: usize)
        requires
            header@.valid(),
        ensures
            n == header_len(header@),
    {
        WAL_ENTRY_HEADER_FIXED_OVERHEAD + header.id_size_bytes as usize
            + header.data_size_bytes as usize
    }

    /// Reads an entry header off the front of `data`.
    pub fn from_bytes(data: &[u8], header: &WalHeader) -> (res: Result<Self, WalEntryError>)
        requires
            header@.valid(),
        ensures
            match (res, parse(data@, header@)) {
                (Ok(e), Ok(v)) => e@ == v,
                (Err(e), Err(f)) => e == f,
                _ => false,
            },
    {
        if data.len() < 8 {
            return Err(WalEntryError::SliceTooShort);
        }
        let version: u64 = words::read_u64(data, 0);
        if version != 0 {
            return Err(WalEntryError::UnsupportedVersion(version));
        }
        let a: usize = 8 + header.id_size_bytes as usize;
        let b: usize = a + header.data_size_bytes as usize;
        if data.len() < b + 8 {
            return Err(WalEntryError::SliceTooShort);
        }
        Ok(
            WalEntryHeader {
                entry_id: UintN::from_le_bytes(slice_subrange(data, 8, a)),
                record_size: UintN::from_le_bytes(slice_subrange(data, a, b)),
                xxhash: words::read_u64(data, b),
            },
        )
    }

    /// Appends the entry header to `dest`, unless the id or the record size
    /// does not fit the file's fields.
    pub fn write_to_bytes(&self, dest: &mut BytesMut, header: &WalHeader) -> (res: Result<
        (),
        WalEntryError,
    >)
        requires
            header@.valid(),
            buf::has_room(*old(dest), 48),
        ensures
            match res {
                Ok(_) => {
                    &&& fits(self@, header@)
                    &&& buf::buffer_of(*final(dest)) == buf::buffer_of(*old(dest)) + header_bytes(
                        self@,
                        header@,
                    )
                },
                Err(e) => {
                    &&& !fits(self@, header@)
                    &&& e == WalEntryError::UintN(UintNError::TooLarge)
                    &&& buf::buffer_of(*final(dest)) == buf::buffer_of(*old(dest))
                },
            },
    {
        let id = match self.entry_id.to_le_bytes(header.id_size_bytes as usize) {
            Ok(b) => b,
            Err(e) => {
                return Err(WalEntryError::UintN(e));
            },
        };
        let size = match self.record_size.to_le_bytes(header.data_size_bytes as usize) {
            Ok(b) => b,
            Err(e) => {
                return Err(WalEntryError::UintN(e));
            },
        };
        let mut out: Vec<u8> = Vec::new();
        words::push_u64(&mut out, 0);
        words::push_slice(&mut out, id.as_slice());
        words::push_slice(&mut out, size.as_slice());
        words::push_u64(&mut out, self.xxhash);
        proof {
            assert(out@ =~= header_bytes(self@, header@));
            entry_header_roundtrip(self@, header@, Seq::<u8>::empty());
        }
        buf::buffer_extend(dest, out.as_slice());
        Ok(())
    }
}

} // verus!
