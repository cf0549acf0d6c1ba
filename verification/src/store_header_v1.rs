//! The current header of archived files, and telling the two formats apart.

use bytes::BytesMut;
use vstd::prelude::*;
use crate::buf;
use crate::store_header;
use crate::store_header::{StoreHeader, StoreHeaderError, StoreView};
use crate::text;
use crate::types;
use crate::types::{CompressionType, EncryptionType};
use crate::uintn;
use crate::uintn::UintN;
use crate::varint;
use crate::varint::VarintError;
use crate::words;

verus! {

pub const STORE_HEADER_V0_VERSION: u64 = 0;

pub const STORE_HEADER_V1_VERSION: u64 = 1;

/// The version word keeps the encoding of the first format, a fixed eight byte
/// little-endian word, so that readers that know only that format report an
/// unsupported version instead of misreading the file.
pub const STORE_HEADER_VERSION_SIZE: usize = 8;

pub const STORE_HEADER_V1_MIN_SIZE: usize = 12;

pub const STORE_HEADER_V1_MAX_SIZE: usize = 48;

#[derive(Debug, Clone, Copy, PartialEq, Eq, Structural)]
pub enum StoreHeaderV1Error {
    /// The input ends before the header does.
    Truncated,
    /// A field does not fit in a `u64`.
    Overflow,
    /// A field has a shorter encoding.
    NonCanonical,
    UnsupportedVersion(u64),
    UnsupportedCompression(u64),
    UnsupportedEncryption(u64),
    /// A counter does not fit in a `u64`.
    ValueTooLarge,
}

/// The current header of an archived file.
#[derive(Debug, Clone, Copy, PartialEq, Eq, Structural)]
pub struct StoreHeaderV1 {
    pub compression: CompressionType,
    pub encryption: EncryptionType,
    pub num_entries_before: u64,
    pub num_entries: u64,
}

impl View for StoreHeaderV1 {
    type V = StoreView;

    open spec fn view(&self) -> StoreView {
        StoreView {
            compression: self.compression,
            encryption: self.encryption,
            num_entries_before: self.num_entries_before as nat,
            num_entries: self.num_entries as nat,
        }
    }
}

/// Which header error a failed field is.
pub open spec fn field_error(e: VarintError) -> StoreHeaderV1Error {
    match e {
        VarintError::Truncated => StoreHeaderV1Error::Truncated,
        VarintError::Overflow => StoreHeaderV1Error::Overflow,
        VarintError::NonCanonical => StoreHeaderV1Error::NonCanonical,
    }
}

/// The four fields of a header as they are written.
pub struct RawFields {
    pub compression: u64,
    pub encryption: u64,
    pub num_entries_before: u64,
    pub num_entries: u64,
}

pub open spec fn raw(h: StoreHeaderV1) -> RawFields {
    RawFields {
        compression: types::compression_code(h.compression),
        encryption: types::encryption_code(h.encryption),
        num_entries_before: h.num_entries_before,
        num_entries: h.num_entries,
    }
}

/// The bytes of a version word and four fields.
pub open spec fn raw_bytes(r: RawFields) -> Seq<u8> {
    words::bytes64(1) + varint::varint(r.compression as nat) + varint::varint(r.encryption as nat)
        + varint::varint(r.num_entries_before as nat) + varint::varint(r.num_entries as nat)
}

/// The bytes of a header.
pub open spec fn header_bytes(h: StoreHeaderV1) -> Seq<u8> {
    raw_bytes(raw(h))
}

/// The four fields behind the version word, and where they end.
pub open spec fn fields(data: Seq<u8>) -> Result<(RawFields, nat), VarintError> {
    match varint::field(data, 8) {
        Err(e) => Err(e),
        Ok((compression, a)) => match varint::field(data, a) {
            Err(e) => Err(e),
            Ok((encryption, b)) => match varint::field(data, b) {
                Err(e) => Err(e),
                Ok((num_entries_before, c)) => match varint::field(data, c) {
                    Err(e) => Err(e),
                    Ok((num_entries, d)) => Ok(
                        (RawFields { compression, encryption, num_entries_before, num_entries }, d),
                    ),
                },
            },
        },
    }
}

/// The header that four fields state.
pub open spec fn decoded(r: RawFields) -> Result<StoreHeaderV1, StoreHeaderV1Error> {
    match types::compression_of(r.compression) {
        None => Err(StoreHeaderV1Error::UnsupportedCompression(r.compression)),
        Some(compression) => match types::encryption_of(r.encryption) {
            None => Err(StoreHeaderV1Error::UnsupportedEncryption(r.encryption)),
            Some(encryption) => Ok(
                StoreHeaderV1 {
                    compression,
                    encryption,
                    num_entries_before: r.num_entries_before,
                    num_entries: r.num_entries,
                },
            ),
        },
    }
}

/// What reading a header off the front of `data` yields: the header and how
/// many bytes it took.
pub open spec fn parse(data: Seq<u8>) -> Result<(StoreHeaderV1, nat), StoreHeaderV1Error> {
    if data.len() < 8 {
        Err(StoreHeaderV1Error::Truncated)
    } else if words::word64(data, 0) != 1 {
        Err(StoreHeaderV1Error::UnsupportedVersion(words::word64(data, 0)))
    } else {
        match fields(data) {
            Err(e) => Err(field_error(e)),
            Ok((r, n)) => match decoded(r) {
                Err(e) => Err(e),
                Ok(h) => Ok((h, n)),
            },
        }
    }
}

proof fn lemma_raw_parts(f: RawFields)
    ensures
        ({
            let s = raw_bytes(f);
            let p = varint::varint(f.compression as nat);
            let q = varint::varint(f.encryption as nat);
            let r = varint::varint(f.num_entries_before as nat);
            let t = varint::varint(f.num_entries as nat);
            let a = 8 + p.len() as int;
            let b = a + q.len() as int;
            let c = b + r.len() as int;
            &&& 1 <= p.len() <= 10 && 1 <= q.len() <= 10
            &&& 1 <= r.len() <= 10 && 1 <= t.len() <= 10
            &&& s.len() == c + t.len()
            &&& s.subrange(0, 8) == words::bytes64(1)
            &&& s.subrange(8, a) == p
            &&& s.subrange(a, b) == q
            &&& s.subrange(b, c) == r
            &&& s.subrange(c, s.len() as int) == t
        }),
{
    let s = raw_bytes(f);
    let p = varint::varint(f.compression as nat);
    let q = varint::varint(f.encryption as nat);
    let r = varint::varint(f.num_entries_before as nat);
    let t = varint::varint(f.num_entries as nat);
    let a = 8 + p.len() as int;
    let b = a + q.len() as int;
    let c = b + r.len() as int;
    words::lemma_bytes64_len(1);
    varint::lemma_base128_values();
    varint::lemma_varint_len(f.compression as nat, 10);
    varint::lemma_varint_len(f.encryption as nat, 10);
    varint::lemma_varint_len(f.num_entries_before as nat, 10);
    varint::lemma_varint_len(f.num_entries as nat, 10);
    assert(s.subrange(0, 8) =~= words::bytes64(1));
    assert(s.subrange(8, a) =~= p);
    assert(s.subrange(a, b) =~= q);
    assert(s.subrange(b, c) =~= r);
    assert(s.subrange(c, s.len() as int) =~= t);
}

/// A header takes between 12 and 48 bytes.
pub proof fn header_size_bounds(h: StoreHeaderV1)
    ensures
        STORE_HEADER_V1_MIN_SIZE <= header_bytes(h).len() <= STORE_HEADER_V1_MAX_SIZE,
{
    lemma_raw_parts(raw(h));
}

/// A written header reads back, whatever follows it.
pub proof fn header_roundtrip(h: StoreHeaderV1, rest: Seq<u8>)
    ensures
        parse(header_bytes(h) + rest) == Ok::<(StoreHeaderV1, nat), StoreHeaderV1Error>(
            (h, header_bytes(h).len()),
        ),
{
    let f = raw(h);
    let s = raw_bytes(f);
    let data = s + rest;
    let p = varint::varint(f.compression as nat);
    let q = varint::varint(f.encryption as nat);
    let r = varint::varint(f.num_entries_before as nat);
    let t = varint::varint(f.num_entries as nat);
    let a = (8 + p.len()) as nat;
    let b = a + q.len();
    let c = b + r.len();
    lemma_raw_parts(f);
    assert(data.subrange(0, 8) =~= s.subrange(0, 8));
    assert(data.subrange(8, a as int) =~= p);
    assert(data.subrange(a as int, b as int) =~= q);
    assert(data.subrange(b as int, c as int) =~= r);
    assert(data.subrange(c as int, (c + t.len()) as int) =~= t);
    words::lemma_word64_of_bytes64(1, data, 0);
    varint::lemma_field_written(data, 8, f.compression);
    varint::lemma_field_written(data, a, f.encryption);
    varint::lemma_field_written(data, b, f.num_entries_before);
    varint::lemma_field_written(data, c, f.num_entries);
    types::codes_roundtrip(h.compression, h.encryption, 0);
}

/// Every proper prefix of a header is cut short, not misread.
pub proof fn header_prefix_is_truncated(h: StoreHeaderV1, k: int)
    requires
        0 <= k < header_bytes(h).len(),
    ensures
        parse(header_bytes(h).take(k)) == Err::<(StoreHeaderV1, nat), StoreHeaderV1Error>(
            StoreHeaderV1Error::Truncated,
        ),
{
    let f = raw(h);
    let s = raw_bytes(f);
    let data = s.take(k);
    let p = varint::varint(f.compression as nat);
    let q = varint::varint(f.encryption as nat);
    let r = varint::varint(f.num_entries_before as nat);
    let t = varint::varint(f.num_entries as nat);
    let a = (8 + p.len()) as nat;
    let b = a + q.len();
    let c = b + r.len();
    lemma_raw_parts(f);
    if k >= 8 {
        assert(data.subrange(0, 8) =~= s.subrange(0, 8));
        words::lemma_word64_of_bytes64(1, data, 0);
        if k < a {
            assert(data.skip(8) =~= p.take(k - 8));
            varint::lemma_field_cut(data, 8, f.compression);
        } else {
            assert(data.subrange(8, a as int) =~= p);
            varint::lemma_field_written(data, 8, f.compression);
            if k < b {
                assert(data.skip(a as int) =~= q.take(k - a));
                varint::lemma_field_cut(data, a, f.encryption);
            } else {
                assert(data.subrange(a as int, b as int) =~= q);
                varint::lemma_field_written(data, a, f.encryption);
                if k < c {
                    assert(data.skip(b as int) =~= r.take(k - b));
                    varint::lemma_field_cut(data, b, f.num_entries_before);
                } else {
                    assert(data.subrange(b as int, c as int) =~= r);
                    varint::lemma_field_written(data, b, f.num_entries_before);
                    assert(data.skip(c as int) =~= t.take(k - c));
                    varint::lemma_field_cut(data, c, f.num_entries);
                }
            }
        }
    }
}

/// An accepted header is, byte for byte, the one that states what was read.
pub proof fn header_is_canonical(data: Seq<u8>)
    requires
        parse(data) is Ok,
    ensures
        ({
            let (h, n) = parse(data)->Ok_0;
            &&& n <= data.len()
            &&& data.take(n as int) == header_bytes(h)
        }),
{
    let (x, a) = varint::field(data, 8)->Ok_0;
    varint::lemma_field_read(data, 8);
    let (y, b) = varint::field(data, a)->Ok_0;
    varint::lemma_field_read(data, a);
    let (z, c) = varint::field(data, b)->Ok_0;
    varint::lemma_field_read(data, b);
    let (w, d) = varint::field(data, c)->Ok_0;
    varint::lemma_field_read(data, c);
    words::lemma_bytes64_of_word64(data, 0);
    types::codes_roundtrip(CompressionType::NoCompression, EncryptionType::NoEncryption, x);
    types::codes_roundtrip(CompressionType::NoCompression, EncryptionType::NoEncryption, y);
    assert(data.take(d as int) =~= data.subrange(0, 8) + data.subrange(8, a as int)
        + data.subrange(a as int, b as int) + data.subrange(b as int, c as int) + data.subrange(
        c as int,
        d as int,
    ));
}

/// A reader that knows only the first format rejects a current header by
/// reporting its version, whatever follows the header.
pub proof fn old_reader_reports_version(h: StoreHeaderV1, rest: Seq<u8>)
    ensures
        store_header::parse(header_bytes(h) + rest) == Err::<(StoreView, nat), StoreHeaderError>(
            StoreHeaderError::UnsupportedVersion(STORE_HEADER_V1_VERSION),
        ),
{
    let s = header_bytes(h);
    lemma_raw_parts(raw(h));
    assert((s + rest).subrange(0, 8) =~= s.subrange(0, 8));
    words::lemma_word64_of_bytes64(1, s + rest, 0);
}

fn map_field_error(e: VarintError) -> (res: StoreHeaderV1Error)
    ensures
        res == field_error(e),
{
    match e {
        VarintError::Truncated => StoreHeaderV1Error::Truncated,
        VarintError::Overflow => StoreHeaderV1Error::Overflow,
        VarintError::NonCanonical => StoreHeaderV1Error::NonCanonical,
    }
}

/// What the version word of a header says.
pub open spec fn version_of(data: Seq<u8>) -> Result<u64, StoreHeaderV1Error> {
    if data.len() < 8 {
        Err(StoreHeaderV1Error::Truncated)
    } else {
        Ok(words::word64(data, 0))
    }
}

/// Reads the version of a header of either format without consuming it.
pub fn peek_version(data: &[u8]) -> (res: Result<u64, StoreHeaderV1Error>)
    ensures
        res == version_of(data@),
{
    if data.len() < STORE_HEADER_VERSION_SIZE {
        return Err(StoreHeaderV1Error::Truncated);
    }
    Ok(words::read_u64(data, 0))
}

/// A header of the first format in the current one.
pub open spec fn converted(h: StoreView) -> Result<StoreHeaderV1, StoreHeaderV1Error> {
    if h.num_entries_before > u64::MAX || h.num_entries > u64::MAX {
        Err(StoreHeaderV1Error::ValueTooLarge)
    } else {
        Ok(
            StoreHeaderV1 {
                compression: h.compression,
                encryption: h.encryption,
                num_entries_before: h.num_entries_before as u64,
                num_entries: h.num_entries as u64,
            },
        )
    }
}

impl StoreHeaderV1 {
    pub fn new(
        compression: CompressionType,
        encryption: EncryptionType,
        num_entries_before: u64,
        num_entries: u64,
    ) -> (res: Self)
        ensures
            res == (StoreHeaderV1 { compression, encryption, num_entries_before, num_entries }),
    {
        StoreHeaderV1 { compression, encryption, num_entries_before, num_entries }
    }

    /// The same header in the current format. Fails when a counter does not fit
    /// in a `u64`.
    pub fn from_v0(header: &StoreHeader) -> (res: Result<Self, StoreHeaderV1Error>)
        ensures
            res == converted(header@),
            res matches Ok(h) ==> h@ == header@,
            res is Ok <==> header@.num_entries_before <= u64::MAX && header@.num_entries
                <= u64::MAX,
    {
        let before: u64 = match header.num_entries_before.to_u64() {
            Ok(v) => v,
            Err(_) => {
                return Err(StoreHeaderV1Error::ValueTooLarge);
            },
        };
        let count: u64 = match header.num_entries.to_u64() {
            Ok(v) => v,
            Err(_) => {
                return Err(StoreHeaderV1Error::ValueTooLarge);
            },
        };
        Ok(StoreHeaderV1::new(header.compression, header.encryption, before, count))
    }

    /// How many bytes the header takes.
    pub fn size(&self) -> (n: usize)
        ensures
            n == header_bytes(*self).len(),
            STORE_HEADER_V1_MIN_SIZE <= n <= STORE_HEADER_V1_MAX_SIZE,
    {
        proof {
            lemma_raw_parts(raw(*self));
        }
        STORE_HEADER_VERSION_SIZE + varint::encoded_len_u64(self.compression.code())
            + varint::encoded_len_u64(self.encryption.code()) + varint::encoded_len_u64(
            self.num_entries_before,
        ) + varint::encoded_len_u64(self.num_entries)
    }

    /// Appends the header to `dest` and says how many bytes that took. It
    /// always succeeds: every header has an encoding.
    pub fn write_to_bytes(&self, dest: &mut BytesMut) -> (res: Result<usize, StoreHeaderV1Error>)
        requires
            buf::has_room(*old(dest), STORE_HEADER_V1_MAX_SIZE as nat),
        ensures
            res == Ok::<usize, StoreHeaderV1Error>(header_bytes(*self).len() as usize),
            buf::buffer_of(*final(dest)) == buf::buffer_of(*old(dest)) + header_bytes(*self),
    {
        let mut out: Vec<u8> = Vec::new();
        words::push_u64(&mut out, STORE_HEADER_V1_VERSION);
        varint::push_u64(&mut out, self.compression.code());
        varint::push_u64(&mut out, self.encryption.code());
        varint::push_u64(&mut out, self.num_entries_before);
        varint::push_u64(&mut out, self.num_entries);
        proof {
            assert(out@ =~= header_bytes(*self));
            header_size_bounds(*self);
        }
        buf::buffer_extend(dest, out.as_slice());
        Ok(out.len())
    }

    /// Reads a header off the front of `data` and says how many bytes it took.
    pub fn from_bytes(data: &[u8]) -> (res: Result<(Self, usize), StoreHeaderV1Error>)
        ensures
            match (res, parse(data@)) {
                (Ok((h, n)), Ok((g, m))) => h == g && n == m && n <= data@.len(),
                (Err(e), Err(f)) => e == f,
                _ => false,
            },
    {
        let version: u64 = match peek_version(data) {
            Ok(v) => v,
            Err(e) => {
                return Err(e);
            },
        };
        if version != STORE_HEADER_V1_VERSION {
            return Err(StoreHeaderV1Error::UnsupportedVersion(version));
        }
        let (c, at): (u64, usize) = match varint::decode_field(data, 8) {
            Ok(v) => v,
            Err(e) => {
                return Err(map_field_error(e));
            },
        };
        let (e, at): (u64, usize) = match varint::decode_field(data, at) {
            Ok(v) => v,
            Err(e) => {
                return Err(map_field_error(e));
            },
        };
        let (before, at): (u64, usize) = match varint::decode_field(data, at) {
            Ok(v) => v,
            Err(e) => {
                return Err(map_field_error(e));
            },
        };
        let (count, at): (u64, usize) = match varint::decode_field(data, at) {
            Ok(v) => v,
            Err(e) => {
                return Err(map_field_error(e));
            },
        };
        let compression = match CompressionType::from_code(c) {
            Some(v) => v,
            None => {
                return Err(StoreHeaderV1Error::UnsupportedCompression(c));
            },
        };
        let encryption = match EncryptionType::from_code(e) {
            Some(v) => v,
            None => {
                return Err(StoreHeaderV1Error::UnsupportedEncryption(e));
            },
        };
        Ok((StoreHeaderV1::new(compression, encryption, before, count), at))
    }

    pub fn is_encrypted(&self) -> (res: bool)
        ensures
            res == (self.encryption != EncryptionType::NoEncryption),
    {
        self.encryption != EncryptionType::NoEncryption
    }

    pub fn is_compressed(&self) -> (res: bool)
        ensures
            res == (self.compression != CompressionType::NoCompression),
    {
        self.compression != CompressionType::NoCompression
    }
}

#[derive(Debug, Clone, Copy, PartialEq, Eq, Structural)]
pub enum AnyStoreHeaderError {
    V0(StoreHeaderError),
    V1(StoreHeaderV1Error),
}

/// An archived file's header of either format.
#[derive(Debug, PartialEq, Eq)]
pub enum AnyStoreHeader {
    V0(StoreHeader),
    V1(StoreHeaderV1),
}

/// A header's contents and which format it has.
pub struct AnyStoreView {
    pub version: u64,
    pub header: StoreView,
}

impl View for AnyStoreHeader {
    type V = AnyStoreView;

    open spec fn view(&self) -> AnyStoreView {
        match *self {
            AnyStoreHeader::V0(h) => AnyStoreView { version: 0, header: h@ },
            AnyStoreHeader::V1(h) => AnyStoreView { version: 1, header: h@ },
        }
    }
}

/// What reading a header of either format off the front of `data` yields.
pub open spec fn parse_any(data: Seq<u8>) -> Result<(AnyStoreView, nat), AnyStoreHeaderError> {
    match version_of(data) {
        Err(e) => Err(AnyStoreHeaderError::V1(e)),
        Ok(version) => if version == 0 {
            match store_header::parse(data) {
                Ok((h, n)) => Ok((AnyStoreView { version: 0, header: h }, n)),
                Err(e) => Err(AnyStoreHeaderError::V0(e)),
            }
        } else {
            match parse(data) {
                Ok((h, n)) => Ok((AnyStoreView { version: 1, header: h@ }, n)),
                Err(e) => Err(AnyStoreHeaderError::V1(e)),
            }
        },
    }
}

/// A header written in either format reads back in that format, whatever
/// follows it.
pub proof fn dispatch_roundtrip(v0: StoreView, v1: StoreHeaderV1, rest: Seq<u8>)
    requires
        v0.num_entries_before < uintn::radix(16),
        v0.num_entries < uintn::radix(16),
    ensures
        parse_any(store_header::header_bytes(v0) + rest) == Ok::<
            (AnyStoreView, nat),
            AnyStoreHeaderError,
        >((AnyStoreView { version: 0, header: v0 }, store_header::header_bytes(v0).len())),
        parse_any(header_bytes(v1) + rest) == Ok::<(AnyStoreView, nat), AnyStoreHeaderError>(
            (AnyStoreView { version: 1, header: v1@ }, header_bytes(v1).len()),
        ),
{
    store_header::header_roundtrip(v0, rest);
    header_roundtrip(v1, rest);
}

impl AnyStoreHeader {
    /// Reads a header of either format off the front of `data` and says how
    /// many bytes it took.
    pub fn from_bytes(data: &[u8]) -> (res: Result<(Self, usize), AnyStoreHeaderError>)
        ensures
            match (res, parse_any(data@)) {
                (Ok((h, n)), Ok((v, m))) => h@ == v && n == m && n <= data@.len(),
                (Err(e), Err(f)) => e == f,
                _ => false,
            },
    {
        let version: u64 = match peek_version(data) {
            Ok(v) => v,
            Err(e) => {
                return Err(AnyStoreHeaderError::V1(e));
            },
        };
        if version == STORE_HEADER_V0_VERSION {
            return match StoreHeader::from_bytes(data) {
                Ok((h, n)) => Ok((AnyStoreHeader::V0(h), n)),
                Err(e) => Err(AnyStoreHeaderError::V0(e)),
            };
        }
        match StoreHeaderV1::from_bytes(data) {
            Ok((h, n)) => Ok((AnyStoreHeader::V1(h), n)),
            Err(e) => Err(AnyStoreHeaderError::V1(e)),
        }
    }

    pub fn version(&self) -> (res: u64)
        ensures
            res == self@.version,
    {
        match self {
            AnyStoreHeader::V0(_) => STORE_HEADER_V0_VERSION,
            AnyStoreHeader::V1(_) => STORE_HEADER_V1_VERSION,
        }
    }

    pub fn compression(&self) -> (res: CompressionType)
        ensures
            res == self@.header.compression,
    {
        match self {
            AnyStoreHeader::V0(h) => h.compression,
            AnyStoreHeader::V1(h) => h.compression,
        }
    }

    pub fn encryption(&self) -> (res: EncryptionType)
        ensures
            res == self@.header.encryption,
    {
        match self {
            AnyStoreHeader::V0(h) => h.encryption,
            AnyStoreHeader::V1(h) => h.encryption,
        }
    }

    pub fn num_entries_before(&self) -> (res: UintN)
        ensures
            res@ == self@.header.num_entries_before,
    {
        match self {
            AnyStoreHeader::V0(h) => h.num_entries_before.clone(),
            AnyStoreHeader::V1(h) => UintN::from_u64(h.num_entries_before),
        }
    }

    pub fn num_entries(&self) -> (res: UintN)
        ensures
            res@ == self@.header.num_entries,
    {
        match self {
            AnyStoreHeader::V0(h) => h.num_entries.clone(),
            AnyStoreHeader::V1(h) => UintN::from_u64(h.num_entries),
        }
    }

    pub fn is_encrypted(&self) -> (res: bool)
        ensures
            res == (self@.header.encryption != EncryptionType::NoEncryption),
    {
        self.encryption() != EncryptionType::NoEncryption
    }

    pub fn is_compressed(&self) -> (res: bool)
        ensures
            res == (self@.header.compression != CompressionType::NoCompression),
    {
        self.compression() != CompressionType::NoCompression
    }
}

/// What an error says.
pub open spec fn error_text(e: StoreHeaderV1Error) -> Seq<char> {
    match e {
        StoreHeaderV1Error::Truncated => "Truncated V1 store header"@,
        StoreHeaderV1Error::Overflow => "V1 store header varint exceeds u64"@,
        StoreHeaderV1Error::NonCanonical => "Non-canonical V1 store header varint"@,
        StoreHeaderV1Error::UnsupportedVersion(v) => "Unsupported store version: "@ + text::decimal(
            v as nat,
        ),
        StoreHeaderV1Error::UnsupportedCompression(c) => "Unsupported compression type: "@
            + text::decimal(c as nat),
        StoreHeaderV1Error::UnsupportedEncryption(c) => "Unsupported encryption type: "@
            + text::decimal(c as nat),
        StoreHeaderV1Error::ValueTooLarge => "Value does not fit in a u64 V1 store header field"@,
    }
}

impl StoreHeaderV1Error {
    /// What the error says.
    pub fn message(&self) -> (res: String)
        ensures
            res@ == error_text(*self),
    {
        match self {
            StoreHeaderV1Error::Truncated => String::from_str("Truncated V1 store header"),
            StoreHeaderV1Error::Overflow => String::from_str("V1 store header varint exceeds u64"),
            StoreHeaderV1Error::NonCanonical => String::from_str(
                "Non-canonical V1 store header varint",
            ),
            StoreHeaderV1Error::UnsupportedVersion(v) => text::with_number(
                "Unsupported store version: ",
                *v,
            ),
            StoreHeaderV1Error::UnsupportedCompression(c) => text::with_number(
                "Unsupported compression type: ",
                *c,
            ),
            StoreHeaderV1Error::UnsupportedEncryption(c) => text::with_number(
                "Unsupported encryption type: ",
                *c,
            ),
            StoreHeaderV1Error::ValueTooLarge => String::from_str(
                "Value does not fit in a u64 V1 store header field",
            ),
        }
    }
}

} // verus!
