//! The header of current log files, and telling the two formats apart.
//!
//! The version word keeps the encoding of the first format, a fixed eight byte
//! little-endian word, so that a reader that knows only that format reports an
//! unsupported version instead of misreading the file. The fields behind it --
//! the width of a record size, the width of an entry id, the number of entries
//! before this file -- are varints.

use bytes::BytesMut;
use vstd::prelude::*;
use crate::buf;
use crate::text;
use crate::uintn;
use crate::uintn::UintN;
use crate::varint;
use crate::varint::VarintError;
use crate::wal_entry_v1;
use crate::wal_entry_v1::WalEntryV1Error;
use crate::wal_header;
use crate::wal_header::{HeaderView, WalHeader, WalHeaderError};
use crate::words;

verus! {

pub const WAL_HEADER_V0_VERSION: u64 = 0;

pub const WAL_HEADER_V1_VERSION: u64 = 1;

/// The bytes of the version word, in either format.
pub const WAL_HEADER_VERSION_SIZE: usize = 8;

pub const WAL_HEADER_V1_MIN_SIZE: usize = 11;

pub const WAL_HEADER_V1_MAX_SIZE: usize = 20;

#[derive(Debug, Clone, Copy, PartialEq, Eq, Structural)]
pub enum WalHeaderV1Error {
    /// The input ends before the header does.
    Truncated,
    /// A field does not fit in a `u64`.
    Overflow,
    /// A field has a shorter encoding.
    NonCanonical,
    UnsupportedVersion(u64),
    InvalidDataSizeBytes(u64),
    InvalidIdSizeBytes(u64),
    /// A counter does not fit in a `u64`.
    ValueTooLarge,
}

/// The header of a current log file.
#[derive(Debug, Clone, Copy, PartialEq, Eq, Structural)]
pub struct WalHeaderV1 {
    pub data_size_bytes: u64,
    pub id_size_bytes: u64,
    pub num_entries_before: u64,
}

/// Which header error a failed field is.
pub open spec fn field_error(e: VarintError) -> WalHeaderV1Error {
    match e {
        VarintError::Truncated => WalHeaderV1Error::Truncated,
        VarintError::Overflow => WalHeaderV1Error::Overflow,
        VarintError::NonCanonical => WalHeaderV1Error::NonCanonical,
    }
}

impl View for WalHeaderV1 {
    type V = HeaderView;

    open spec fn view(&self) -> HeaderView {
        HeaderView {
            data_size_bytes: self.data_size_bytes,
            id_size_bytes: self.id_size_bytes,
            num_entries_before: self.num_entries_before as nat,
        }
    }
}

/// The bytes of a header.
pub open spec fn header_bytes(h: WalHeaderV1) -> Seq<u8> {
    words::bytes64(1) + varint::varint(h.data_size_bytes as nat) + varint::varint(
        h.id_size_bytes as nat,
    ) + varint::varint(h.num_entries_before as nat)
}

/// Which width of a header, if any, is not one that a field can have.
pub open spec fn width_error(h: WalHeaderV1) -> Option<WalHeaderV1Error> {
    if !uintn::valid_data_size(h.data_size_bytes) {
        Some(WalHeaderV1Error::InvalidDataSizeBytes(h.data_size_bytes))
    } else if !uintn::valid_data_size(h.id_size_bytes) {
        Some(WalHeaderV1Error::InvalidIdSizeBytes(h.id_size_bytes))
    } else {
        None
    }
}

/// The three fields behind the version word, and where they end.
pub open spec fn fields(data: Seq<u8>) -> Result<(WalHeaderV1, nat), VarintError> {
    match varint::field(data, 8) {
        Err(e) => Err(e),
        Ok((data_size_bytes, a)) => match varint::field(data, a) {
            Err(e) => Err(e),
            Ok((id_size_bytes, b)) => match varint::field(data, b) {
                Err(e) => Err(e),
                Ok((num_entries_before, c)) => Ok(
                    (WalHeaderV1 { data_size_bytes, id_size_bytes, num_entries_before }, c),
                ),
            },
        },
    }
}

/// What reading a header off the front of `data` yields: the header and how
/// many bytes it took.
pub open spec fn parse(data: Seq<u8>) -> Result<(WalHeaderV1, nat), WalHeaderV1Error> {
    if data.len() < 8 {
        Err(WalHeaderV1Error::Truncated)
    } else if words::word64(data, 0) != 1 {
        Err(WalHeaderV1Error::UnsupportedVersion(words::word64(data, 0)))
    } else {
        match fields(data) {
            Err(e) => Err(field_error(e)),
            Ok((h, n)) => match width_error(h) {
                Some(e) => Err(e),
                None => Ok((h, n)),
            },
        }
    }
}

proof fn lemma_header_parts(h: WalHeaderV1)
    ensures
        ({
            let s = header_bytes(h);
            let p = varint::varint(h.data_size_bytes as nat);
            let q = varint::varint(h.id_size_bytes as nat);
            let r = varint::varint(h.num_entries_before as nat);
            let a = 8 + p.len() as int;
            let b = a + q.len() as int;
            &&& 1 <= p.len() <= 10 && 1 <= q.len() <= 10 && 1 <= r.len() <= 10
            &&& s.len() == b + r.len()
            &&& s.subrange(0, 8) == words::bytes64(1)
            &&& s.subrange(8, a) == p
            &&& s.subrange(a, b) == q
            &&& s.subrange(b, s.len() as int) == r
        }),
{
    let s = header_bytes(h);
    let p = varint::varint(h.data_size_bytes as nat);
    let q = varint::varint(h.id_size_bytes as nat);
    let r = varint::varint(h.num_entries_before as nat);
    let a = 8 + p.len() as int;
    let b = a + q.len() as int;
    words::lemma_bytes64_len(1);
    varint::lemma_base128_values();
    varint::lemma_varint_len(h.data_size_bytes as nat, 10);
    varint::lemma_varint_len(h.id_size_bytes as nat, 10);
    varint::lemma_varint_len(h.num_entries_before as nat, 10);
    assert(s.subrange(0, 8) =~= words::bytes64(1));
    assert(s.subrange(8, a) =~= p);
    assert(s.subrange(a, b) =~= q);
    assert(s.subrange(b, s.len() as int) =~= r);
}

/// A valid header takes between 11 and 20 bytes.
pub proof fn header_size_bounds(h: WalHeaderV1)
    requires
        width_error(h) is None,
    ensures
        WAL_HEADER_V1_MIN_SIZE <= header_bytes(h).len() <= WAL_HEADER_V1_MAX_SIZE,
{
    lemma_header_parts(h);
}

/// A written header reads back, whatever follows it.
pub proof fn header_roundtrip(h: WalHeaderV1, rest: Seq<u8>)
    requires
        width_error(h) is None,
    ensures
        parse(header_bytes(h) + rest) == Ok::<(WalHeaderV1, nat), WalHeaderV1Error>(
            (h, header_bytes(h).len()),
        ),
{
    let s = header_bytes(h);
    let data = s + rest;
    let p = varint::varint(h.data_size_bytes as nat);
    let q = varint::varint(h.id_size_bytes as nat);
    let r = varint::varint(h.num_entries_before as nat);
    let a = (8 + p.len()) as nat;
    let b = a + q.len();
    lemma_header_parts(h);
    assert(data.subrange(0, 8) =~= s.subrange(0, 8));
    assert(data.subrange(8, a as int) =~= p);
    assert(data.subrange(a as int, b as int) =~= q);
    assert(data.subrange(b as int, (b + r.len()) as int) =~= r);
    words::lemma_word64_of_bytes64(1, data, 0);
    varint::lemma_field_written(data, 8, h.data_size_bytes);
    varint::lemma_field_written(data, a, h.id_size_bytes);
    varint::lemma_field_written(data, b, h.num_entries_before);
}

/// Every proper prefix of a header is cut short, not misread.
pub proof fn header_prefix_is_truncated(h: WalHeaderV1, k: int)
    requires
        0 <= k < header_bytes(h).len(),
    ensures
        parse(header_bytes(h).take(k)) == Err::<(WalHeaderV1, nat), WalHeaderV1Error>(
            WalHeaderV1Error::Truncated,
        ),
{
    let s = header_bytes(h);
    let data = s.take(k);
    let p = varint::varint(h.data_size_bytes as nat);
    let q = varint::varint(h.id_size_bytes as nat);
    let r = varint::varint(h.num_entries_before as nat);
    let a = (8 + p.len()) as nat;
    let b = a + q.len();
    lemma_header_parts(h);
    if k >= 8 {
        assert(data.subrange(0, 8) =~= s.subrange(0, 8));
        words::lemma_word64_of_bytes64(1, data, 0);
        if k < a {
            assert(data.skip(8) =~= p.take(k - 8));
            varint::lemma_field_cut(data, 8, h.data_size_bytes);
        } else {
            assert(data.subrange(8, a as int) =~= p);
            varint::lemma_field_written(data, 8, h.data_size_bytes);
            if k < b {
                assert(data.skip(a as int) =~= q.take(k - a));
                varint::lemma_field_cut(data, a, h.id_size_bytes);
            } else {
                assert(data.subrange(a as int, b as int) =~= q);
                varint::lemma_field_written(data, a, h.id_size_bytes);
                assert(data.skip(b as int) =~= r.take(k - b));
                varint::lemma_field_cut(data, b, h.num_entries_before);
            }
        }
    }
}

/// An accepted header is, byte for byte, the one that states what was read.
pub proof fn header_is_canonical(data: Seq<u8>)
    requires
        parse(data) is Ok,
    ensures
        ({
            let (h, n) = parse(data)->Ok_0;
            &&& width_error(h) is None
            &&& n <= data.len()
            &&& data.take(n as int) == header_bytes(h)
        }),
{
    let (x, a) = varint::field(data, 8)->Ok_0;
    varint::lemma_field_read(data, 8);
    let (y, b) = varint::field(data, a)->Ok_0;
    varint::lemma_field_read(data, a);
    let (z, c) = varint::field(data, b)->Ok_0;
    varint::lemma_field_read(data, b);
    words::lemma_bytes64_of_word64(data, 0);
    assert(data.take(c as int) =~= data.subrange(0, 8) + data.subrange(8, a as int)
        + data.subrange(a as int, b as int) + data.subrange(b as int, c as int));
}

/// Once enough bytes are there to decide on a header, more change nothing.
pub proof fn header_parse_is_stable(data: Seq<u8>, more: Seq<u8>)
    requires
        parse(data) != Err::<(WalHeaderV1, nat), WalHeaderV1Error>(WalHeaderV1Error::Truncated),
    ensures
        parse(data + more) == parse(data),
{
    assert((data + more).subrange(0, 8) =~= data.subrange(0, 8));
    if words::word64(data, 0) == 1 {
        varint::lemma_field_stable(data, more, 8);
        if let Ok((x, a)) = varint::field(data, 8) {
            varint::lemma_field_read(data, 8);
            varint::lemma_field_stable(data, more, a);
            if let Ok((y, b)) = varint::field(data, a) {
                varint::lemma_field_read(data, a);
                varint::lemma_field_stable(data, more, b);
            }
        }
    }
}

/// A reader that knows only the first format rejects a current header by
/// reporting its version, whatever follows the header.
pub proof fn old_reader_reports_version(h: WalHeaderV1, rest: Seq<u8>)
    ensures
        wal_header::parse(header_bytes(h) + rest) == Err::<(HeaderView, nat), WalHeaderError>(
            WalHeaderError::UnsupportedVersion(WAL_HEADER_V1_VERSION),
        ),
{
    let s = header_bytes(h);
    lemma_header_parts(h);
    assert((s + rest).subrange(0, 8) =~= s.subrange(0, 8));
    words::lemma_word64_of_bytes64(1, s + rest, 0);
}

fn map_field_error(e: VarintError) -> (res: WalHeaderV1Error)
    ensures
        res == field_error(e),
{
    match e {
        VarintError::Truncated => WalHeaderV1Error::Truncated,
        VarintError::Overflow => WalHeaderV1Error::Overflow,
        VarintError::NonCanonical => WalHeaderV1Error::NonCanonical,
    }
}

/// What the version word of a header says.
pub open spec fn version_of(data: Seq<u8>) -> Result<u64, WalHeaderV1Error> {
    if data.len() < 8 {
        Err(WalHeaderV1Error::Truncated)
    } else {
        Ok(words::word64(data, 0))
    }
}

/// Reads the version of a header of either format without consuming it.
pub fn peek_version(data: &[u8]) -> (res: Result<u64, WalHeaderV1Error>)
    ensures
        res == version_of(data@),
{
    if data.len() < WAL_HEADER_VERSION_SIZE {
        return Err(WalHeaderV1Error::Truncated);
    }
    Ok(words::read_u64(data, 0))
}

impl WalHeaderV1 {
    /// A header with these contents, unless a width is not one that a field
    /// can have.
    pub fn new(data_size_bytes: u64, id_size_bytes: u64, num_entries_before: u64) -> (res: Result<
        Self,
        WalHeaderV1Error,
    >)
        ensures
            ({
                let h = WalHeaderV1 { data_size_bytes, id_size_bytes, num_entries_before };
                res == match width_error(h) {
                    None => Ok(h),
                    Some(e) => Err(e),
                }
            }),
    {
        if !UintN::is_valid_data_size(data_size_bytes) {
            return Err(WalHeaderV1Error::InvalidDataSizeBytes(data_size_bytes));
        }
        if !UintN::is_valid_data_size(id_size_bytes) {
            return Err(WalHeaderV1Error::InvalidIdSizeBytes(id_size_bytes));
        }
        Ok(WalHeaderV1 { data_size_bytes, id_size_bytes, num_entries_before })
    }

    /// The same header in the current format. Fails when the counter does not
    /// fit in a `u64`, or a width is not one that a field can have.
    pub fn from_v0(header: &WalHeader) -> (res: Result<Self, WalHeaderV1Error>)
        ensures
            res == converted(header@),
            res matches Ok(h) ==> h@ == header@,
    {
        match header.num_entries_before.to_u64() {
            Ok(n) => WalHeaderV1::new(header.data_size_bytes, header.id_size_bytes, n),
            Err(_) => Err(WalHeaderV1Error::ValueTooLarge),
        }
    }

    /// How many bytes the header takes.
    pub fn size(&self) -> (n: usize)
        ensures
            n == header_bytes(*self).len(),
            n <= 38,
    {
        proof {
            lemma_header_parts(*self);
        }
        WAL_HEADER_VERSION_SIZE + varint::encoded_len_u64(self.data_size_bytes)
            + varint::encoded_len_u64(self.id_size_bytes) + varint::encoded_len_u64(
            self.num_entries_before,
        )
    }

    pub(crate) fn to_vec(&self) -> (out: Vec<u8>)
        ensures
            out@ == header_bytes(*self),
    {
        let mut out: Vec<u8> = Vec::new();
        words::push_u64(&mut out, WAL_HEADER_V1_VERSION);
        varint::push_u64(&mut out, self.data_size_bytes);
        varint::push_u64(&mut out, self.id_size_bytes);
        varint::push_u64(&mut out, self.num_entries_before);
        assert(out@ =~= header_bytes(*self));
        out
    }

    /// Appends the header to `dest` and says how many bytes that took. A
    /// header with a width that no field can have is not written.
    pub fn write_to_bytes(&self, dest: &mut BytesMut) -> (res: Result<usize, WalHeaderV1Error>)
        requires
            buf::has_room(*old(dest), WAL_HEADER_V1_MAX_SIZE as nat),
        ensures
            match res {
                Ok(n) => {
                    &&& width_error(*self) is None
                    &&& n == header_bytes(*self).len()
                    &&& buf::buffer_of(*final(dest)) == buf::buffer_of(*old(dest)) + header_bytes(
                        *self,
                    )
                },
                Err(e) => {
                    &&& width_error(*self) == Some(e)
                    &&& buf::buffer_of(*final(dest)) == buf::buffer_of(*old(dest))
                },
            },
    {
        match WalHeaderV1::new(self.data_size_bytes, self.id_size_bytes, self.num_entries_before) {
            Ok(_) => {},
            Err(e) => {
                return Err(e);
            },
        }
        proof {
            header_size_bounds(*self);
        }
        let out = self.to_vec();
        buf::buffer_extend(dest, out.as_slice());
        Ok(out.len())
    }

    /// Reads a header off the front of `data` and says how many bytes it took.
    pub fn from_bytes(data: &[u8]) -> (res: Result<(Self, usize), WalHeaderV1Error>)
        ensures
            match (res, parse(data@)) {
                (Ok((h, n)), Ok((g, m))) => h == g && n == m && n <= data@.len(),
                (Err(e), Err(f)) => e == f,
                _ => false,
            },
    {
        let version: u64 = match peek_version(data) {
            Ok(v) => v,
            Err(e) => {
                return Err(e);
            },
        };
        if version != WAL_HEADER_V1_VERSION {
            return Err(WalHeaderV1Error::UnsupportedVersion(version));
        }
        let (data_size, a): (u64, usize) = match varint::decode_field(data, 8) {
            Ok(v) => v,
            Err(e) => {
                return Err(map_field_error(e));
            },
        };
        let (id_size, b): (u64, usize) = match varint::decode_field(data, a) {
            Ok(v) => v,
            Err(e) => {
                return Err(map_field_error(e));
            },
        };
        let (before, c): (u64, usize) = match varint::decode_field(data, b) {
            Ok(v) => v,
            Err(e) => {
                return Err(map_field_error(e));
            },
        };
        match WalHeaderV1::new(data_size, id_size, before) {
            Ok(h) => Ok((h, c)),
            Err(e) => Err(e),
        }
    }

    /// The id of the entry at position `index` of the file.
    pub fn entry_id(&self, index: u64) -> (res: Result<u64, WalEntryV1Error>)
        ensures
            match res {
                Ok(id) => id == self.num_entries_before + index,
                Err(e) => self.num_entries_before + index > u64::MAX && e
                    == WalEntryV1Error::IdOverflow,
            },
    {
        wal_entry_v1::derive_entry_id(self.num_entries_before, index)
    }
}

/// A header of the first format in the current one.
pub open spec fn converted(h: HeaderView) -> Result<WalHeaderV1, WalHeaderV1Error> {
    if h.num_entries_before > u64::MAX {
        Err(WalHeaderV1Error::ValueTooLarge)
    } else {
        let c = WalHeaderV1 {
            data_size_bytes: h.data_size_bytes,
            id_size_bytes: h.id_size_bytes,
            num_entries_before: h.num_entries_before as u64,
        };
        match width_error(c) {
            None => Ok(c),
            Some(e) => Err(e),
        }
    }
}

#[derive(Debug, Clone, Copy, PartialEq, Eq, Structural)]
pub enum AnyWalHeaderError {
    V0(WalHeaderError),
    V1(WalHeaderV1Error),
}

/// A log file header of either format.
#[derive(Debug, PartialEq, Eq)]
pub enum AnyWalHeader {
    V0(WalHeader),
    V1(WalHeaderV1),
}

/// A header's contents and which format it has.
pub struct AnyHeaderView {
    pub version: u64,
    pub header: HeaderView,
}

impl View for AnyWalHeader {
    type V = AnyHeaderView;

    open spec fn view(&self) -> AnyHeaderView {
        match *self {
            AnyWalHeader::V0(h) => AnyHeaderView { version: 0, header: h@ },
            AnyWalHeader::V1(h) => AnyHeaderView { version: 1, header: h@ },
        }
    }
}

/// What reading a header of either format off the front of `data` yields.
pub open spec fn parse_any(data: Seq<u8>) -> Result<(AnyHeaderView, nat), AnyWalHeaderError> {
    match version_of(data) {
        Err(e) => Err(AnyWalHeaderError::V1(e)),
        Ok(version) => if version == 0 {
            match wal_header::parse(data) {
                Ok((h, n)) => Ok((AnyHeaderView { version: 0, header: h }, n)),
                Err(e) => Err(AnyWalHeaderError::V0(e)),
            }
        } else {
            match parse(data) {
                Ok((h, n)) => Ok((AnyHeaderView { version: 1, header: h@ }, n)),
                Err(e) => Err(AnyWalHeaderError::V1(e)),
            }
        },
    }
}

/// Whether a failed read only lacked bytes.
pub open spec fn is_incomplete(e: AnyWalHeaderError) -> bool {
    ||| e == AnyWalHeaderError::V0(WalHeaderError::SliceTooShort)
    ||| e == AnyWalHeaderError::V1(WalHeaderV1Error::Truncated)
}

/// Whether more bytes are needed to read a header.
pub open spec fn lacks_bytes(data: Seq<u8>) -> bool {
    parse_any(data) matches Err(e) && is_incomplete(e)
}

/// An accepted header has valid widths, ends within the input, and one of the
/// current format has a counter that fits in a `u64`.
pub proof fn lemma_parse_any_bounds(data: Seq<u8>)
    requires
        parse_any(data) is Ok,
    ensures
        ({
            let (h, n) = parse_any(data)->Ok_0;
            &&& h.header.valid()
            &&& n <= data.len()
            &&& h.version == 0 || h.version == 1
            &&& h.version == 1 ==> h.header.num_entries_before <= u64::MAX
        }),
{
    if words::word64(data, 0) != 0 {
        header_is_canonical(data);
    }
}

/// A header written in either format reads back in that format, whatever
/// follows it.
pub proof fn dispatch_roundtrip(v0: HeaderView, v1: WalHeaderV1, rest: Seq<u8>)
    requires
        v0.valid(),
        v0.num_entries_before < uintn::radix(16),
        width_error(v1) is None,
    ensures
        parse_any(wal_header::header_bytes(v0) + rest) == Ok::<
            (AnyHeaderView, nat),
            AnyWalHeaderError,
        >(
            (
                AnyHeaderView { version: 0, header: v0 },
                wal_header::header_bytes(v0).len(),
            ),
        ),
        parse_any(header_bytes(v1) + rest) == Ok::<(AnyHeaderView, nat), AnyWalHeaderError>(
            (AnyHeaderView { version: 1, header: v1@ }, header_bytes(v1).len()),
        ),
{
    wal_header::header_roundtrip(v0, rest);
    header_roundtrip(v1, rest);
}

impl AnyWalHeader {
    /// Reads a header of either format off the front of `data` and says how
    /// many bytes it took.
    pub fn from_bytes(data: &[u8]) -> (res: Result<(Self, usize), AnyWalHeaderError>)
        ensures
            match (res, parse_any(data@)) {
                (Ok((h, n)), Ok((v, m))) => h@ == v && n == m && n <= data@.len(),
                (Err(e), Err(f)) => e == f,
                _ => false,
            },
    {
        let version: u64 = match peek_version(data) {
            Ok(v) => v,
            Err(e) => {
                return Err(AnyWalHeaderError::V1(e));
            },
        };
        if version == WAL_HEADER_V0_VERSION {
            return match WalHeader::from_bytes(data) {
                Ok((h, n)) => Ok((AnyWalHeader::V0(h), n)),
                Err(e) => Err(AnyWalHeaderError::V0(e)),
            };
        }
        match WalHeaderV1::from_bytes(data) {
            Ok((h, n)) => Ok((AnyWalHeader::V1(h), n)),
            Err(e) => Err(AnyWalHeaderError::V1(e)),
        }
    }

    pub fn version(&self) -> (res: u64)
        ensures
            res == self@.version,
    {
        match self {
            AnyWalHeader::V0(_) => WAL_HEADER_V0_VERSION,
            AnyWalHeader::V1(_) => WAL_HEADER_V1_VERSION,
        }
    }

    pub fn data_size_bytes(&self) -> (res: u64)
        ensures
            res == self@.header.data_size_bytes,
    {
        match self {
            AnyWalHeader::V0(h) => h.data_size_bytes,
            AnyWalHeader::V1(h) => h.data_size_bytes,
        }
    }

    pub fn id_size_bytes(&self) -> (res: u64)
        ensures
            res == self@.header.id_size_bytes,
    {
        match self {
            AnyWalHeader::V0(h) => h.id_size_bytes,
            AnyWalHeader::V1(h) => h.id_size_bytes,
        }
    }

    pub fn num_entries_before(&self) -> (res: UintN)
        ensures
            res@ == self@.header.num_entries_before,
    {
        match self {
            AnyWalHeader::V0(h) => h.num_entries_before.clone(),
            AnyWalHeader::V1(h) => UintN::from_u64(h.num_entries_before),
        }
    }

    /// The contents of the header, whichever format it has.
    pub fn to_header(&self) -> (res: WalHeader)
        ensures
            res@ == self@.header,
    {
        WalHeader {
            data_size_bytes: self.data_size_bytes(),
            id_size_bytes: self.id_size_bytes(),
            num_entries_before: self.num_entries_before(),
        }
    }
}

/// Reads a header of either format byte by byte, so that not a byte more than
/// the header is taken.
pub struct HeaderReader {
    seen: Vec<u8>,
}

impl View for HeaderReader {
    type V = Seq<u8>;

    closed spec fn view(&self) -> Seq<u8> {
        self.seen@
    }
}

impl HeaderReader {
    pub fn new() -> (res: Self)
        ensures
            res@ == Seq::<u8>::empty(),
    {
        HeaderReader { seen: Vec::new() }
    }

    /// Takes the next byte. Says what was read, or that more is needed.
    pub fn push(&mut self, byte: u8) -> (res: Option<
        Result<(AnyWalHeader, usize), AnyWalHeaderError>,
    >)
        ensures
            final(self)@ == old(self)@.push(byte),
            match (res, parse_any(final(self)@)) {
                (Some(Ok((h, n))), Ok((v, m))) => h@ == v && n == m,
                (Some(Err(e)), Err(f)) => e == f && !is_incomplete(f),
                (None, Err(f)) => is_incomplete(f),
                _ => false,
            },
    {
        self.seen.push(byte);
        match AnyWalHeader::from_bytes(self.seen.as_slice()) {
            Ok(v) => Some(Ok(v)),
            Err(AnyWalHeaderError::V0(WalHeaderError::SliceTooShort)) => None,
            Err(AnyWalHeaderError::V1(WalHeaderV1Error::Truncated)) => None,
            Err(e) => Some(Err(e)),
        }
    }

    /// There are no more bytes: what is wrong with those that were there.
    pub fn end(&self) -> (res: Option<AnyWalHeaderError>)
        ensures
            match (res, parse_any(self@)) {
                (Some(e), Err(f)) => e == f,
                (None, Ok(_)) => true,
                _ => false,
            },
    {
        match AnyWalHeader::from_bytes(self.seen.as_slice()) {
            Ok(_) => None,
            Err(e) => Some(e),
        }
    }
}

/// Reading byte by byte needs exactly the bytes of the header: every part of it
/// that is shorter only lacks bytes.
pub proof fn dispatch_prefix_is_incomplete(v0: HeaderView, v1: WalHeaderV1, k: int)
    requires
        v0.valid(),
        v0.num_entries_before < uintn::radix(16),
        width_error(v1) is None,
        0 <= k,
    ensures
        k < wal_header::header_bytes(v0).len() ==> lacks_bytes(
            wal_header::header_bytes(v0).take(k),
        ),
        k < header_bytes(v1).len() ==> lacks_bytes(header_bytes(v1).take(k)),
{
    if k < wal_header::header_bytes(v0).len() {
        wal_header::header_prefix_is_too_short(v0, k);
        let s = wal_header::header_bytes(v0);
        wal_header::header_roundtrip(v0, Seq::empty());
        assert(s + Seq::<u8>::empty() =~= s);
        if k >= 8 {
            assert(s.take(k).subrange(0, 8) =~= s.subrange(0, 8));
        }
    }
    if k < header_bytes(v1).len() {
        header_prefix_is_truncated(v1, k);
        let s = header_bytes(v1);
        lemma_header_parts(v1);
        if k >= 8 {
            assert(s.take(k).subrange(0, 8) =~= s.subrange(0, 8));
            words::lemma_word64_of_bytes64(1, s.take(k), 0);
        }
    }
}

/// What an error says.
pub open spec fn error_text(e: WalHeaderV1Error) -> Seq<char> {
    match e {
        WalHeaderV1Error::Truncated => "Truncated V1 WAL header"@,
        WalHeaderV1Error::Overflow => "V1 WAL header varint exceeds u64"@,
        WalHeaderV1Error::NonCanonical => "Non-canonical V1 WAL header varint"@,
        WalHeaderV1Error::UnsupportedVersion(v) => "Unsupported WAL version: "@ + text::decimal(
            v as nat,
        ),
        WalHeaderV1Error::InvalidDataSizeBytes(n) => "Invalid data size bytes: "@ + text::decimal(
            n as nat,
        ),
        WalHeaderV1Error::InvalidIdSizeBytes(n) => "Invalid ID size bytes: "@ + text::decimal(
            n as nat,
        ),
        WalHeaderV1Error::ValueTooLarge => "Value does not fit in a u64 V1 WAL header field"@,
    }
}

impl WalHeaderV1Error {
    /// What the error says.
    pub fn message(&self) -> (res: String)
        ensures
            res@ == error_text(*self),
    {
        match self {
            WalHeaderV1Error::Truncated => String::from_str("Truncated V1 WAL header"),
            WalHeaderV1Error::Overflow => String::from_str("V1 WAL header varint exceeds u64"),
            WalHeaderV1Error::NonCanonical => String::from_str(
                "Non-canonical V1 WAL header varint",
            ),
            WalHeaderV1Error::UnsupportedVersion(v) => text::with_number(
                "Unsupported WAL version: ",
                *v,
            ),
            WalHeaderV1Error::InvalidDataSizeBytes(n) => text::with_number(
                "Invalid data size bytes: ",
                *n,
            ),
            WalHeaderV1Error::InvalidIdSizeBytes(n) => text::with_number(
                "Invalid ID size bytes: ",
                *n,
            ),
            WalHeaderV1Error::ValueTooLarge => String::from_str(
                "Value does not fit in a u64 V1 WAL header field",
            ),
        }
    }
}

} // verus!
