//! The header of log files of the first format.
//!
//! Four little-endian `u64` words -- the version, which is zero, the width of
//! a record size, the width of an entry id, and the width of the counter that
//! follows -- and the number of entries in the files before this one.

use bytes::BytesMut;
use vstd::prelude::*;
use vstd::slice::slice_subrange;
use crate::buf;
use crate::uintn;
use crate::uintn::{UintN, UintNError};
use crate::words;

verus! {

#[derive(Debug, Clone, Copy, PartialEq, Eq, Structural)]
pub enum WalHeaderError {
    /// The input ends before the header does.
    SliceTooShort,
    UnsupportedVersion(u64),
    InvalidDataSizeBytes(u64),
    InvalidIdSizeBytes(u64),
    UintN(UintNError),
}

/// What a log file's header says.
#[derive(Debug, PartialEq, Eq)]
pub struct WalHeader {
    /// How many bytes a record size takes.
    pub data_size_bytes: u64,
    /// How many bytes an entry id takes.
    pub id_size_bytes: u64,
    /// How many entries the files before this one hold.
    pub num_entries_before: UintN,
}

/// The contents of a header.
pub struct HeaderView {
    pub data_size_bytes: u64,
    pub id_size_bytes: u64,
    pub num_entries_before: nat,
}

impl HeaderView {
    pub open spec fn valid(self) -> bool {
        &&& uintn::valid_data_size(self.data_size_bytes)
        &&& uintn::valid_data_size(self.id_size_bytes)
    }
}

impl View for WalHeader {
    type V = HeaderView;

    open spec fn view(&self) -> HeaderView {
        HeaderView {
            data_size_bytes: self.data_size_bytes,
            id_size_bytes: self.id_size_bytes,
            num_entries_before: self.num_entries_before@,
        }
    }
}

/// How wide the counter is written.
pub open spec fn counter_width(v: nat) -> nat {
    if v < uintn::radix(8) {
        8
    } else {
        16
    }
}

/// The bytes of a header.
pub open spec fn header_bytes(h: HeaderView) -> Seq<u8> {
    let w = counter_width(h.num_entries_before);
    words::bytes64(0) + words::bytes64(h.data_size_bytes) + words::bytes64(h.id_size_bytes)
        + words::bytes64(w as u64) + uintn::le_bytes(h.num_entries_before, w)
}

/// What reading a header off the front of `data` yields: the header and how
/// many bytes it took.
pub open spec fn parse(data: Seq<u8>) -> Result<(HeaderView, nat), WalHeaderError> {
    if data.len() < 8 {
        Err(WalHeaderError::SliceTooShort)
    } else if words::word64(data, 0) != 0 {
        Err(WalHeaderError::UnsupportedVersion(words::word64(data, 0)))
    } else if data.len() < 32 {
        Err(WalHeaderError::SliceTooShort)
    } else {
        let data_size = words::word64(data, 8);
        let id_size = words::word64(data, 16);
        let width = words::word64(data, 24);
        if !uintn::valid_data_size(data_size) {
            Err(WalHeaderError::InvalidDataSizeBytes(data_size))
        } else if !uintn::valid_data_size(id_size) {
            Err(WalHeaderError::InvalidIdSizeBytes(id_size))
        } else if !uintn::valid_data_size(width) {
            Err(WalHeaderError::UintN(UintNError::InvalidSize(width)))
        } else if data.len() < 32 + width {
            Err(WalHeaderError::SliceTooShort)
        } else {
            Ok(
                (
                    HeaderView {
                        data_size_bytes: data_size,
                        id_size_bytes: id_size,
                        num_entries_before: uintn::le_value(data.subrange(32, 32 + width)),
                    },
                    (32 + width) as nat,
                ),
            )
        }
    }
}

proof fn lemma_header_words(h: HeaderView)
    ensures
        ({
            let s = header_bytes(h);
            let w = counter_width(h.num_entries_before);
            &&& s.len() == 32 + w
            &&& s.subrange(0, 8) == words::bytes64(0)
            &&& s.subrange(8, 16) == words::bytes64(h.data_size_bytes)
            &&& s.subrange(16, 24) == words::bytes64(h.id_size_bytes)
            &&& s.subrange(24, 32) == words::bytes64(w as u64)
            &&& s.subrange(32, 32 + w as int) == uintn::le_bytes(h.num_entries_before, w)
        }),
{
    let s = header_bytes(h);
    let w = counter_width(h.num_entries_before);
    words::lemma_bytes64_len(0);
    words::lemma_bytes64_len(h.data_size_bytes);
    words::lemma_bytes64_len(h.id_size_bytes);
    words::lemma_bytes64_len(w as u64);
    uintn::lemma_le_bytes_len(h.num_entries_before, w);
    assert(s.subrange(0, 8) =~= words::bytes64(0));
    assert(s.subrange(8, 16) =~= words::bytes64(h.data_size_bytes));
    assert(s.subrange(16, 24) =~= words::bytes64(h.id_size_bytes));
    assert(s.subrange(24, 32) =~= words::bytes64(w as u64));
    assert(s.subrange(32, 32 + w as int) =~= uintn::le_bytes(h.num_entries_before, w));
}

/// A written header reads back, whatever follows it.
pub proof fn header_roundtrip(h: HeaderView, rest: Seq<u8>)
    requires
        h.valid(),
        h.num_entries_before < uintn::radix(16),
    ensures
        parse(header_bytes(h) + rest) == Ok::<(HeaderView, nat), WalHeaderError>(
            (h, header_bytes(h).len()),
        ),
{
    let s = header_bytes(h);
    let data = s + rest;
    let w = counter_width(h.num_entries_before);
    lemma_header_words(h);
    assert(data.subrange(0, 8) =~= s.subrange(0, 8));
    assert(data.subrange(8, 16) =~= s.subrange(8, 16));
    assert(data.subrange(16, 24) =~= s.subrange(16, 24));
    assert(data.subrange(24, 32) =~= s.subrange(24, 32));
    assert(data.subrange(32, 32 + w as int) =~= s.subrange(32, 32 + w as int));
    words::lemma_word64_of_bytes64(0, data, 0);
    words::lemma_word64_of_bytes64(h.data_size_bytes, data, 8);
    words::lemma_word64_of_bytes64(h.id_size_bytes, data, 16);
    words::lemma_word64_of_bytes64(w as u64, data, 24);
    uintn::lemma_le_bytes_value(h.num_entries_before, w);
}

/// Every proper prefix of a header is cut short, not misread.
pub proof fn header_prefix_is_too_short(h: HeaderView, k: int)
    requires
        h.valid(),
        h.num_entries_before < uintn::radix(16),
        0 <= k < header_bytes(h).len(),
    ensures
        parse(header_bytes(h).take(k)) == Err::<(HeaderView, nat), WalHeaderError>(
            WalHeaderError::SliceTooShort,
        ),
{
    let s = header_bytes(h);
    let data = s.take(k);
    let w = counter_width(h.num_entries_before);
    lemma_header_words(h);
    if k >= 8 {
        assert(data.subrange(0, 8) =~= s.subrange(0, 8));
        words::lemma_word64_of_bytes64(0, data, 0);
        if k >= 32 {
            assert(data.subrange(8, 16) =~= s.subrange(8, 16));
            assert(data.subrange(16, 24) =~= s.subrange(16, 24));
            assert(data.subrange(24, 32) =~= s.subrange(24, 32));
            words::lemma_word64_of_bytes64(h.data_size_bytes, data, 8);
            words::lemma_word64_of_bytes64(h.id_size_bytes, data, 16);
            words::lemma_word64_of_bytes64(w as u64, data, 24);
        }
    }
}

impl Clone for WalHeader {
    fn clone(&self) -> (res: Self)
        ensures
            res@ == self@,
    {
        WalHeader {
            data_size_bytes: self.data_size_bytes,
            id_size_bytes: self.id_size_bytes,
            num_entries_before: self.num_entries_before.clone(),
        }
    }
}

impl Default for WalHeader {
    fn default() -> (res: Self)
        ensures
            res@ == (HeaderView { data_size_bytes: 8, id_size_bytes: 8, num_entries_before: 0 }),
    {
        WalHeader { data_size_bytes: 8, id_size_bytes: 8, num_entries_before: UintN::zero() }
    }
}

impl WalHeader {
    /// A header with these contents, unless a width is not one that a field
    /// can have.
    pub fn new(data_size_bytes: u64, id_size_bytes: u64, num_entries_before: UintN) -> (res: Result<
        Self,
        WalHeaderError,
    >)
        ensures
            match res {
                Ok(h) => {
                    &&& h@ == HeaderView {
                        data_size_bytes,
                        id_size_bytes,
                        num_entries_before: num_entries_before@,
                    }
                    &&& h@.valid()
                },
                Err(e) => if !uintn::valid_data_size(data_size_bytes) {
                    e == WalHeaderError::InvalidDataSizeBytes(data_size_bytes)
                } else {
                    &&& !uintn::valid_data_size(id_size_bytes)
                    &&& e == WalHeaderError::InvalidIdSizeBytes(id_size_bytes)
                },
            },
    {
        if !UintN::is_valid_data_size(data_size_bytes) {
            return Err(WalHeaderError::InvalidDataSizeBytes(data_size_bytes));
        }
        if !UintN::is_valid_data_size(id_size_bytes) {
            return Err(WalHeaderError::InvalidIdSizeBytes(id_size_bytes));
        }
        Ok(WalHeader { data_size_bytes, id_size_bytes, num_entries_before })
    }

    /// Reads a header off the front of `data` and says how many bytes it took.
    pub fn from_bytes(data: &[u8]) -> (res: Result<(Self, usize), WalHeaderError>)
        ensures
            match (res, parse(data@)) {
                (Ok((h, n)), Ok((v, m))) => h@ == v && n == m && n <= data@.len(),
                (Err(e), Err(f)) => e == f,
                _ => false,
            },
    {
        if data.len() < 8 {
            return Err(WalHeaderError::SliceTooShort);
        }
        let version: u64 = words::read_u64(data, 0);
        if version != 0 {
            return Err(WalHeaderError::UnsupportedVersion(version));
        }
        if data.len() < 32 {
            return Err(WalHeaderError::SliceTooShort);
        }
        let data_size: u64 = words::read_u64(data, 8);
        let id_size: u64 = words::read_u64(data, 16);
        let width: u64 = words::read_u64(data, 24);
        if !UintN::is_valid_data_size(data_size) {
            return Err(WalHeaderError::InvalidDataSizeBytes(data_size));
        }
        if !UintN::is_valid_data_size(id_size) {
            return Err(WalHeaderError::InvalidIdSizeBytes(id_size));
        }
        if !UintN::is_valid_data_size(width) {
            return Err(WalHeaderError::UintN(UintNError::InvalidSize(width)));
        }
        let end: usize = 32 + width as usize;
        if data.len() < end {
            return Err(WalHeaderError::SliceTooShort);
        }
        let num_entries_before = UintN::from_le_bytes(slice_subrange(data, 32, end));
        Ok(
            (
                WalHeader { data_size_bytes: data_size, id_size_bytes: id_size, num_entries_before },
                end,
            ),
        )
    }

    /// Appends the header to `dest`. Its counter has to fit the widest field.
    pub fn write_to_bytes(&self, dest: &mut BytesMut)
        requires
            self@.num_entries_before < uintn::radix(16),
            buf::has_room(*old(dest), 48),
        ensures
            buf::buffer_of(*final(dest)) == buf::buffer_of(*old(dest)) + header_bytes(self@),
    {
        let before = match self.num_entries_before.to_le_bytes(8) {
            Ok(b) => b,
            Err(_) => match self.num_entries_before.to_le_bytes(16) {
                Ok(b) => b,
                Err(_) => {
                    assert(false);
                    Vec::new()
                },
            },
        };
        proof {
            lemma_header_words(self@);
            uintn::lemma_le_bytes_len(self@.num_entries_before, 8);
            uintn::lemma_le_bytes_len(self@.num_entries_before, 16);
        }
        let mut out: Vec<u8> = Vec::new();
        words::push_u64(&mut out, 0);
        words::push_u64(&mut out, self.data_size_bytes);
        words::push_u64(&mut out, self.id_size_bytes);
        words::push_u64(&mut out, before.len() as u64);
        words::push_slice(&mut out, before.as_slice());
        assert(out@ =~= header_bytes(self@));
        buf::buffer_extend(dest, out.as_slice());
    }

    /// The header of a file that has to hold `next_entry_id` and a record of
    /// `next_data_size` bytes: fields too narrow for them are widened to the
    /// narrowest that is not.
    pub fn resize(&self, next_entry_id: &UintN, next_data_size: usize) -> (res: WalHeader)
        ensures
            res@ == resized(self@, next_entry_id@, next_data_size as nat),
    {
        let id_width: u64 = next_entry_id.field_width();
        let data_width: u64 = UintN::from_u64(next_data_size as u64).field_width();
        WalHeader {
            data_size_bytes: if self.data_size_bytes < data_width {
                data_width
            } else {
                self.data_size_bytes
            },
            id_size_bytes: if self.id_size_bytes < id_width {
                id_width
            } else {
                self.id_size_bytes
            },
            num_entries_before: self.num_entries_before.clone(),
        }
    }
}

/// A header whose fields are at least wide enough for an id and a record size.
pub open spec fn resized(h: HeaderView, next_entry_id: nat, next_data_size: nat) -> HeaderView {
    let data_width = uintn::field_width(next_data_size);
    let id_width = uintn::field_width(next_entry_id);
    HeaderView {
        data_size_bytes: if h.data_size_bytes < data_width {
            data_width
        } else {
            h.data_size_bytes
        },
        id_size_bytes: if h.id_size_bytes < id_width {
            id_width
        } else {
            h.id_size_bytes
        },
        num_entries_before: h.num_entries_before,
    }
}

/// Resizing never narrows a field, and makes room for the id and the record.
pub proof fn resize_makes_room(h: HeaderView, next_entry_id: nat, next_data_size: nat)
    requires
        h.valid(),
        next_entry_id < uintn::radix(16),
        next_data_size < uintn::radix(16),
    ensures
        ({
            let r = resized(h, next_entry_id, next_data_size);
            &&& r.valid()
            &&& r.num_entries_before == h.num_entries_before
            &&& r.data_size_bytes >= h.data_size_bytes
            &&& r.id_size_bytes >= h.id_size_bytes
            &&& next_entry_id < uintn::radix(r.id_size_bytes as nat)
            &&& next_data_size < uintn::radix(r.data_size_bytes as nat)
        }),
{
    let r = resized(h, next_entry_id, next_data_size);
    uintn::lemma_radix_monotone(
        uintn::field_width(next_entry_id) as nat,
        r.id_size_bytes as nat,
    );
    uintn::lemma_radix_monotone(
        uintn::field_width(next_data_size) as nat,
        r.data_size_bytes as nat,
    );
}

} // verus!
