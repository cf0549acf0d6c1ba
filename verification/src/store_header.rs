//! What archived files start with: their signatures, and the header of the
//! first format.
//!
//! Everything is little-endian. The signature block is a version word and two
//! signatures, each behind its length. The header is a version word, the codes
//! of the compression and the encryption, and two counters, each behind its
//! width.

use bytes::BytesMut;
use vstd::prelude::*;
use vstd::slice::slice_subrange;
use crate::buf;
use crate::types;
use crate::types::{CompressionType, EncryptionType};
use crate::uintn;
use crate::uintn::{UintN, UintNError};
use crate::wal_header;
use crate::words;

verus! {

/// The bytes of a signature.
pub const SIGNATURE_SIZE: usize = 64;

/// The bytes of the signature block.
pub const FILE_AUTHENTICATION_SIZE: usize = 152;

#[derive(Debug, Clone, Copy, PartialEq, Eq, Structural)]
pub enum StoreHeaderError {
    /// The input ends before the header does.
    SliceTooShort,
    UnsupportedVersion(u64),
    UnsupportedCompression(u64),
    UnsupportedEncryption(u64),
    InvalidSignatureSize(u64),
    UintN(UintNError),
}

/// The signatures of an archived file's header and contents.
#[derive(Debug, PartialEq, Eq)]
pub struct FileAuthentication {
    pub header_signature: Vec<u8>,
    pub content_signature: Vec<u8>,
}

/// The bytes of a signature block.
pub open spec fn authentication_bytes(header: Seq<u8>, content: Seq<u8>) -> Seq<u8> {
    words::bytes64(0) + words::bytes64(64) + header + words::bytes64(64) + content
}

/// What reading a signature block off the front of `data` yields: the two
/// signatures.
pub open spec fn parse_authentication(data: Seq<u8>) -> Result<
    (Seq<u8>, Seq<u8>),
    StoreHeaderError,
> {
    if data.len() < 8 {
        Err(StoreHeaderError::SliceTooShort)
    } else if words::word64(data, 0) != 0 {
        Err(StoreHeaderError::UnsupportedVersion(words::word64(data, 0)))
    } else if data.len() < 152 {
        Err(StoreHeaderError::SliceTooShort)
    } else if words::word64(data, 8) != 64 {
        Err(StoreHeaderError::InvalidSignatureSize(words::word64(data, 8)))
    } else if words::word64(data, 80) != 64 {
        Err(StoreHeaderError::InvalidSignatureSize(words::word64(data, 80)))
    } else {
        Ok((data.subrange(16, 80), data.subrange(88, 152)))
    }
}

/// A written signature block reads back, whatever follows it.
pub proof fn authentication_roundtrip(header: Seq<u8>, content: Seq<u8>, rest: Seq<u8>)
    requires
        header.len() == 64,
        content.len() == 64,
    ensures
        authentication_bytes(header, content).len() == FILE_AUTHENTICATION_SIZE,
        parse_authentication(authentication_bytes(header, content) + rest) == Ok::<
            (Seq<u8>, Seq<u8>),
            StoreHeaderError,
        >((header, content)),
{
    let data = authentication_bytes(header, content) + rest;
    words::lemma_bytes64_len(0);
    words::lemma_bytes64_len(64);
    assert(data.subrange(0, 8) =~= words::bytes64(0));
    assert(data.subrange(8, 16) =~= words::bytes64(64));
    assert(data.subrange(80, 88) =~= words::bytes64(64));
    words::lemma_word64_of_bytes64(0, data, 0);
    words::lemma_word64_of_bytes64(64, data, 8);
    words::lemma_word64_of_bytes64(64, data, 80);
    assert(data.subrange(16, 80) =~= header);
    assert(data.subrange(88, 152) =~= content);
}

impl FileAuthentication {
    pub fn new(header_signature: Vec<u8>, content_signature: Vec<u8>) -> (res: Self)
        ensures
            res.header_signature@ == header_signature@,
            res.content_signature@ == content_signature@,
    {
        FileAuthentication { header_signature, content_signature }
    }

    /// Reads a signature block off the front of `data` and says how many bytes
    /// it took.
    pub fn from_bytes(data: &[u8]) -> (res: Result<(Self, usize), StoreHeaderError>)
        ensures
            match (res, parse_authentication(data@)) {
                (Ok((a, n)), Ok((h, c))) => {
                    &&& a.header_signature@ == h
                    &&& a.content_signature@ == c
                    &&& n == FILE_AUTHENTICATION_SIZE
                    &&& n <= data@.len()
                },
                (Err(e), Err(f)) => e == f,
                _ => false,
            },
    {
        if data.len() < 8 {
            return Err(StoreHeaderError::SliceTooShort);
        }
        let version: u64 = words::read_u64(data, 0);
        if version != 0 {
            return Err(StoreHeaderError::UnsupportedVersion(version));
        }
        if data.len() < FILE_AUTHENTICATION_SIZE {
            return Err(StoreHeaderError::SliceTooShort);
        }
        let first: u64 = words::read_u64(data, 8);
        if first != 64 {
            return Err(StoreHeaderError::InvalidSignatureSize(first));
        }
        let second: u64 = words::read_u64(data, 80);
        if second != 64 {
            return Err(StoreHeaderError::InvalidSignatureSize(second));
        }
        Ok(
            (
                FileAuthentication {
                    header_signature: vstd::slice::slice_to_vec(slice_subrange(data, 16, 80)),
                    content_signature: vstd::slice::slice_to_vec(slice_subrange(data, 88, 152)),
                },
                FILE_AUTHENTICATION_SIZE,
            ),
        )
    }

    /// Appends the signature block to `dest`.
    pub fn write_to_bytes(&self, dest: &mut BytesMut)
        requires
            self.header_signature@.len() == SIGNATURE_SIZE,
            self.content_signature@.len() == SIGNATURE_SIZE,
            buf::has_room(*old(dest), FILE_AUTHENTICATION_SIZE as nat),
        ensures
            buf::buffer_of(*final(dest)) == buf::buffer_of(*old(dest)) + authentication_bytes(
                self.header_signature@,
                self.content_signature@,
            ),
    {
        let mut out: Vec<u8> = Vec::new();
        words::push_u64(&mut out, 0);
        words::push_u64(&mut out, SIGNATURE_SIZE as u64);
        words::push_slice(&mut out, self.header_signature.as_slice());
        words::push_u64(&mut out, SIGNATURE_SIZE as u64);
        words::push_slice(&mut out, self.content_signature.as_slice());
        proof {
            authentication_roundtrip(
                self.header_signature@,
                self.content_signature@,
                Seq::<u8>::empty(),
            );
            assert(out@ =~= authentication_bytes(
                self.header_signature@,
                self.content_signature@,
            ));
        }
        buf::buffer_extend(dest, out.as_slice());
    }
}

/// The formats of an archived file's header that this module knows.
#[derive(Debug, Clone, Copy, PartialEq, Eq, Structural)]
pub enum StoreHeaderVersion {
    V0,
}

/// What an archived file's header says.
#[derive(Debug, PartialEq, Eq)]
pub struct StoreHeader {
    pub version: StoreHeaderVersion,
    pub compression: CompressionType,
    pub encryption: EncryptionType,
    /// How many entries the files before this one hold.
    pub num_entries_before: UintN,
    /// How many entries this file holds.
    pub num_entries: UintN,
}

/// The contents of an archived file's header.
pub struct StoreView {
    pub compression: CompressionType,
    pub encryption: EncryptionType,
    pub num_entries_before: nat,
    pub num_entries: nat,
}

impl View for StoreHeader {
    type V = StoreView;

    open spec fn view(&self) -> StoreView {
        StoreView {
            compression: self.compression,
            encryption: self.encryption,
            num_entries_before: self.num_entries_before@,
            num_entries: self.num_entries@,
        }
    }
}

/// The bytes of a counter: its width and its value.
pub open spec fn counter_bytes(v: nat) -> Seq<u8> {
    let w = wal_header::counter_width(v);
    words::bytes64(w as u64) + uintn::le_bytes(v, w)
}

/// What reading a counter at `at` yields: its value and where it ends.
pub open spec fn parse_counter(data: Seq<u8>, at: nat) -> Result<(nat, nat), StoreHeaderError> {
    if data.len() < at + 8 {
        Err(StoreHeaderError::SliceTooShort)
    } else {
        let width = words::word64(data, at as int);
        if !uintn::valid_data_size(width) {
            Err(StoreHeaderError::UintN(UintNError::InvalidSize(width)))
        } else if data.len() < at + 8 + width {
            Err(StoreHeaderError::SliceTooShort)
        } else {
            Ok(
                (
                    uintn::le_value(data.subrange((at + 8) as int, at + 8 + width)),
                    (at + 8 + width) as nat,
                ),
            )
        }
    }
}

/// The bytes of a header.
pub open spec fn header_bytes(h: StoreView) -> Seq<u8> {
    words::bytes64(0) + words::bytes64(types::compression_code(h.compression)) + words::bytes64(
        types::encryption_code(h.encryption),
    ) + counter_bytes(h.num_entries_before) + counter_bytes(h.num_entries)
}

/// What reading a header off the front of `data` yields: the header and how
/// many bytes it took.
pub open spec fn parse(data: Seq<u8>) -> Result<(StoreView, nat), StoreHeaderError> {
    if data.len() < 8 {
        Err(StoreHeaderError::SliceTooShort)
    } else if words::word64(data, 0) != 0 {
        Err(StoreHeaderError::UnsupportedVersion(words::word64(data, 0)))
    } else if data.len() < 24 {
        Err(StoreHeaderError::SliceTooShort)
    } else {
        match types::compression_of(words::word64(data, 8)) {
            None => Err(StoreHeaderError::UnsupportedCompression(words::word64(data, 8))),
            Some(compression) => match types::encryption_of(words::word64(data, 16)) {
                None => Err(StoreHeaderError::UnsupportedEncryption(words::word64(data, 16))),
                Some(encryption) => match parse_counter(data, 24) {
                    Err(e) => Err(e),
                    Ok((num_entries_before, a)) => match parse_counter(data, a) {
                        Err(e) => Err(e),
                        Ok((num_entries, b)) => Ok(
                            (
                                StoreView {
                                    compression,
                                    encryption,
                                    num_entries_before,
                                    num_entries,
                                },
                                b,
                            ),
                        ),
                    },
                },
            },
        }
    }
}

proof fn lemma_counter(v: nat)
    ensures
        counter_bytes(v).len() == 8 + wal_header::counter_width(v),
        counter_bytes(v).len() <= 24,
{
    let w = wal_header::counter_width(v);
    words::lemma_bytes64_len(w as u64);
    uintn::lemma_le_bytes_len(v, w);
}

proof fn lemma_counter_written(data: Seq<u8>, at: nat, v: nat)
    requires
        v < uintn::radix(16),
        at + counter_bytes(v).len() <= data.len(),
        data.subrange(at as int, (at + counter_bytes(v).len()) as int) == counter_bytes(v),
    ensures
        parse_counter(data, at) == Ok::<(nat, nat), StoreHeaderError>(
            (v, at + counter_bytes(v).len()),
        ),
{
    let w = wal_header::counter_width(v);
    let s = counter_bytes(v);
    let t = data.subrange(at as int, (at + s.len()) as int);
    lemma_counter(v);
    words::lemma_bytes64_len(w as u64);
    assert(data.subrange(at as int, (at + 8) as int) =~= t.subrange(0, 8));
    assert(t.subrange(0, 8) =~= words::bytes64(w as u64));
    words::lemma_word64_of_bytes64(w as u64, data, at as int);
    assert(data.subrange((at + 8) as int, (at + 8 + w) as int) =~= t.subrange(8, 8 + w as int));
    assert(t.subrange(8, 8 + w as int) =~= uintn::le_bytes(v, w));
    uintn::lemma_le_bytes_value(v, w);
}

/// A written header reads back, whatever follows it.
pub proof fn header_roundtrip(h: StoreView, rest: Seq<u8>)
    requires
        h.num_entries_before < uintn::radix(16),
        h.num_entries < uintn::radix(16),
    ensures
        parse(header_bytes(h) + rest) == Ok::<(StoreView, nat), StoreHeaderError>(
            (h, header_bytes(h).len()),
        ),
{
    let s = header_bytes(h);
    let data = s + rest;
    let c = types::compression_code(h.compression);
    let e = types::encryption_code(h.encryption);
    let p = counter_bytes(h.num_entries_before);
    let q = counter_bytes(h.num_entries);
    let a = (24 + p.len()) as nat;
    words::lemma_bytes64_len(0);
    words::lemma_bytes64_len(c);
    words::lemma_bytes64_len(e);
    assert(data.subrange(0, 8) =~= words::bytes64(0));
    assert(data.subrange(8, 16) =~= words::bytes64(c));
    assert(data.subrange(16, 24) =~= words::bytes64(e));
    words::lemma_word64_of_bytes64(0, data, 0);
    words::lemma_word64_of_bytes64(c, data, 8);
    words::lemma_word64_of_bytes64(e, data, 16);
    assert(data.subrange(24, a as int) =~= p);
    assert(data.subrange(a as int, (a + q.len()) as int) =~= q);
    lemma_counter_written(data, 24, h.num_entries_before);
    lemma_counter_written(data, a, h.num_entries);
    types::codes_roundtrip(h.compression, h.encryption, 0);
}

fn read_counter(data: &[u8], at: usize) -> (res: Result<(UintN, usize), StoreHeaderError>)
    requires
        at <= data@.len(),
    ensures
        match (res, parse_counter(data@, at as nat)) {
            (Ok((v, n)), Ok((w, m))) => v@ == w && n == m && n <= data@.len(),
            (Err(e), Err(f)) => e == f,
            _ => false,
        },
{
    let rest: usize = data.len() - at;
    if rest < 8 {
        return Err(StoreHeaderError::SliceTooShort);
    }
    let width: u64 = words::read_u64(data, at);
    if !UintN::is_valid_data_size(width) {
        return Err(StoreHeaderError::UintN(UintNError::InvalidSize(width)));
    }
    if rest < 8 + width as usize {
        return Err(StoreHeaderError::SliceTooShort);
    }
    let end: usize = at + 8 + width as usize;
    Ok((UintN::from_le_bytes(slice_subrange(data, at + 8, end)), end))
}

fn push_counter(out: &mut Vec<u8>, v: &UintN)
    requires
        v@ < uintn::radix(16),
    ensures
        final(out)@ == old(out)@ + counter_bytes(v@),
{
    let ghost start = out@;
    let bytes = match v.to_le_bytes(8) {
        Ok(b) => b,
        Err(_) => match v.to_le_bytes(16) {
            Ok(b) => b,
            Err(_) => {
                assert(false);
                Vec::new()
            },
        },
    };
    proof {
        uintn::lemma_le_bytes_len(v@, 8);
        uintn::lemma_le_bytes_len(v@, 16);
    }
    words::push_u64(out, bytes.len() as u64);
    words::push_slice(out, bytes.as_slice());
    assert(out@ =~= start + counter_bytes(v@));
}

impl StoreHeader {
    pub fn new(
        compression: CompressionType,
        encryption: EncryptionType,
        num_entries_before: UintN,
        num_entries: UintN,
    ) -> (res: Self)
        ensures
            res@ == (StoreView {
                compression,
                encryption,
                num_entries_before: num_entries_before@,
                num_entries: num_entries@,
            }),
            res.version == StoreHeaderVersion::V0,
    {
        StoreHeader {
            version: StoreHeaderVersion::V0,
            compression,
            encryption,
            num_entries_before,
            num_entries,
        }
    }

    /// Reads a header off the front of `data` and says how many bytes it took.
    pub fn from_bytes(data: &[u8]) -> (res: Result<(Self, usize), StoreHeaderError>)
        ensures
            match (res, parse(data@)) {
                (Ok((h, n)), Ok((v, m))) => h@ == v && n == m && n <= data@.len(),
                (Err(e), Err(f)) => e == f,
                _ => false,
            },
    {
        if data.len() < 8 {
            return Err(StoreHeaderError::SliceTooShort);
        }
        let version: u64 = words::read_u64(data, 0);
        if version != 0 {
            return Err(StoreHeaderError::UnsupportedVersion(version));
        }
        if data.len() < 24 {
            return Err(StoreHeaderError::SliceTooShort);
        }
        let c: u64 = words::read_u64(data, 8);
        let compression = match CompressionType::from_code(c) {
            Some(v) => v,
            None => {
                return Err(StoreHeaderError::UnsupportedCompression(c));
            },
        };
        let e: u64 = words::read_u64(data, 16);
        let encryption = match EncryptionType::from_code(e) {
            Some(v) => v,
            None => {
                return Err(StoreHeaderError::UnsupportedEncryption(e));
            },
        };
        let (num_entries_before, a) = match read_counter(data, 24) {
            Ok(v) => v,
            Err(e) => {
                return Err(e);
            },
        };
        let (num_entries, b) = match read_counter(data, a) {
            Ok(v) => v,
            Err(e) => {
                return Err(e);
            },
        };
        Ok((StoreHeader::new(compression, encryption, num_entries_before, num_entries), b))
    }

    /// Appends the header to `dest`. Its counters have to fit the widest field.
    pub fn write_to_bytes(&self, dest: &mut BytesMut)
        requires
            self@.num_entries_before < uintn::radix(16),
            self@.num_entries < uintn::radix(16),
            buf::has_room(*old(dest), 72),
        ensures
            buf::buffer_of(*final(dest)) == buf::buffer_of(*old(dest)) + header_bytes(self@),
    {
        let mut out: Vec<u8> = Vec::new();
        words::push_u64(&mut out, 0);
        words::push_u64(&mut out, self.compression.code());
        words::push_u64(&mut out, self.encryption.code());
        push_counter(&mut out, &self.num_entries_before);
        push_counter(&mut out, &self.num_entries);
        proof {
            assert(out@ =~= header_bytes(self@));
            words::lemma_bytes64_len(0);
            words::lemma_bytes64_len(types::compression_code(self.compression));
            words::lemma_bytes64_len(types::encryption_code(self.encryption));
            lemma_counter(self@.num_entries_before);
            lemma_counter(self@.num_entries);
        }
        buf::buffer_extend(dest, out.as_slice());
    }
}

} // verus!
