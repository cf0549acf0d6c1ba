//! Archived files: a signature block, a header, and a log file's bytes,
//! compressed and encrypted.
//!
//! Compressing, encrypting and signing are done elsewhere. Here is decided
//! what is compressed, encrypted and signed, what a file looks like, and what
//! is made of it again.

use bytes::Bytes;
use vstd::prelude::*;
use crate::buf;
use crate::errors::WalError;
use crate::ranges;
use crate::ranges::{FrontView, RangeStoreError, StoreFront};
use crate::reader;
use crate::store_header;
use crate::store_header::{FileAuthentication, StoreHeader, StoreHeaderError, StoreView, FILE_AUTHENTICATION_SIZE, SIGNATURE_SIZE};
use crate::store_header_v1;
use crate::store_header_v1::{AnyStoreHeaderError, AnyStoreView, StoreHeaderV1, StoreHeaderV1Error};
use crate::types::{CompressionType, EncryptionType};
use crate::uintn::{UintN, UintNError};
use crate::wal_header::WalHeader;
use crate::wal_header_v1;
use crate::wal_header_v1::AnyWalHeaderError;
use crate::wal_store::WalFile;

verus! {

/// The bytes of the nonce in front of encrypted content.
pub const NONCE_SIZE: usize = 12;

/// A shorter file has no header.
pub const MIN_STORE_FILE_SIZE: usize = 10;

#[derive(Debug, PartialEq, Eq)]
pub enum StoreError {
    /// An I/O operation failed, with this message.
    Io(String),
    Header(StoreHeaderError),
    AnyHeader(AnyStoreHeaderError),
    Decrypt,
    Wal(WalError),
    UintN(UintNError),
    Range(RangeStoreError),
    /// Listing a queue's files failed, with this message.
    Path(String),
    WalHeaderError(AnyWalHeaderError),
    FileNotFound,
    SignatureVerificationFailed,
}

impl From<AnyStoreHeaderError> for StoreError {
    fn from(e: AnyStoreHeaderError) -> (res: Self) {
        StoreError::AnyHeader(e)
    }
}

impl vstd::std_specs::convert::FromSpecImpl<AnyStoreHeaderError> for StoreError {
    open spec fn obeys_from_spec() -> bool {
        true
    }

    open spec fn from_spec(e: AnyStoreHeaderError) -> StoreError {
        StoreError::AnyHeader(e)
    }
}

impl From<StoreHeaderError> for StoreError {
    fn from(e: StoreHeaderError) -> (res: Self) {
        StoreError::Header(e)
    }
}

impl vstd::std_specs::convert::FromSpecImpl<StoreHeaderError> for StoreError {
    open spec fn obeys_from_spec() -> bool {
        true
    }

    open spec fn from_spec(e: StoreHeaderError) -> StoreError {
        StoreError::Header(e)
    }
}

impl From<WalError> for StoreError {
    fn from(e: WalError) -> (res: Self) {
        StoreError::Wal(e)
    }
}

impl vstd::std_specs::convert::FromSpecImpl<WalError> for StoreError {
    open spec fn obeys_from_spec() -> bool {
        true
    }

    open spec fn from_spec(e: WalError) -> StoreError {
        StoreError::Wal(e)
    }
}

impl From<UintNError> for StoreError {
    fn from(e: UintNError) -> (res: Self) {
        StoreError::UintN(e)
    }
}

impl vstd::std_specs::convert::FromSpecImpl<UintNError> for StoreError {
    open spec fn obeys_from_spec() -> bool {
        true
    }

    open spec fn from_spec(e: UintNError) -> StoreError {
        StoreError::UintN(e)
    }
}

impl From<RangeStoreError> for StoreError {
    fn from(e: RangeStoreError) -> (res: Self) {
        StoreError::Range(e)
    }
}

impl vstd::std_specs::convert::FromSpecImpl<RangeStoreError> for StoreError {
    open spec fn obeys_from_spec() -> bool {
        true
    }

    open spec fn from_spec(e: RangeStoreError) -> StoreError {
        StoreError::Range(e)
    }
}

impl From<AnyWalHeaderError> for StoreError {
    fn from(e: AnyWalHeaderError) -> (res: Self) {
        StoreError::WalHeaderError(e)
    }
}

impl vstd::std_specs::convert::FromSpecImpl<AnyWalHeaderError> for StoreError {
    open spec fn obeys_from_spec() -> bool {
        true
    }

    open spec fn from_spec(e: AnyWalHeaderError) -> StoreError {
        StoreError::WalHeaderError(e)
    }
}

/// How archived files are written and read.
#[derive(Debug, Clone, Copy, PartialEq, Eq, Structural)]
pub struct StoreWriteConfig {
    pub num_workers: usize,
    pub verify_signatures: bool,
}

impl Default for StoreWriteConfig {
    fn default() -> (res: Self)
        ensures
            res == (StoreWriteConfig { num_workers: 4, verify_signatures: false }),
    {
        StoreWriteConfig { num_workers: 4, verify_signatures: false }
    }
}

// ---------------------------------------------------------------------------
// Reading.

/// What is behind the header of an archived file.
pub enum Payload {
    Plain(Bytes),
    Encrypted { nonce: Bytes, ciphertext: Bytes },
}

pub enum PayloadView {
    Plain(Seq<u8>),
    Encrypted { nonce: Seq<u8>, ciphertext: Seq<u8> },
}

impl View for Payload {
    type V = PayloadView;

    open spec fn view(&self) -> PayloadView {
        match *self {
            Payload::Plain(b) => PayloadView::Plain(buf::bytes_of(b)),
            Payload::Encrypted { nonce, ciphertext } => PayloadView::Encrypted {
                nonce: buf::bytes_of(nonce),
                ciphertext: buf::bytes_of(ciphertext),
            },
        }
    }
}

/// How content is decompressed.
#[derive(Debug, Clone, Copy, PartialEq, Eq, Structural)]
pub enum Codec {
    AsIs,
    Zstd,
    Xz,
}

/// How content of a compression type is decompressed.
pub open spec fn codec_of(c: CompressionType) -> Codec {
    match c {
        CompressionType::NoCompression => Codec::AsIs,
        CompressionType::Gzip => Codec::Zstd,
        CompressionType::Xz => Codec::Xz,
        CompressionType::Zstd => Codec::Zstd,
    }
}

/// An error of reading the front of an archived file.
pub open spec fn front_error(e: RangeStoreError) -> StoreError {
    match e {
        RangeStoreError::Header(h) => StoreError::Header(h),
        RangeStoreError::AnyHeader(h) => StoreError::AnyHeader(h),
        _ => StoreError::Range(e),
    }
}

/// What the content of an archived file is, or that it cannot be decrypted.
pub open spec fn payload_of(encryption: EncryptionType, content: Seq<u8>) -> Result<
    PayloadView,
    StoreError,
> {
    if encryption == EncryptionType::NoEncryption {
        Ok(PayloadView::Plain(content))
    } else if content.len() < NONCE_SIZE {
        Err(StoreError::Decrypt)
    } else {
        Ok(
            PayloadView::Encrypted {
                nonce: content.take(NONCE_SIZE as int),
                ciphertext: content.skip(NONCE_SIZE as int),
            },
        )
    }
}

/// An archived file whose front was read.
pub struct StoreFile {
    content: Bytes,
    front: StoreFront,
}

impl StoreFile {
    /// The whole file.
    pub closed spec fn spec_content(&self) -> Seq<u8> {
        buf::bytes_of(self.content)
    }

    /// What its front holds.
    pub closed spec fn spec_front(&self) -> FrontView {
        self.front@
    }

    pub closed spec fn wf(&self) -> bool {
        FILE_AUTHENTICATION_SIZE <= self.front.content_at <= buf::bytes_of(self.content).len()
    }

    /// Reads the front of a file.
    pub fn open(content: Bytes) -> (res: Result<Self, StoreError>)
        ensures
            match (res, ranges::parse_front(buf::bytes_of(content))) {
                (Ok(f), Ok(v)) => {
                    &&& f.wf()
                    &&& f.spec_front() == v
                    &&& f.spec_content() == buf::bytes_of(content)
                },
                (Err(e), Err(v)) => e == front_error(v),
                _ => false,
            },
    {
        match StoreFront::from_bytes(buf::bytes_slice(&content)) {
            Ok(front) => Ok(StoreFile { content, front }),
            Err(RangeStoreError::Header(e)) => Err(StoreError::from(e)),
            Err(RangeStoreError::AnyHeader(e)) => Err(StoreError::from(e)),
            Err(e) => Err(StoreError::from(e)),
        }
    }

    /// The bytes that the header's signature is about, and the signature.
    pub fn signed_header(&self) -> (res: (&[u8], &[u8]))
        requires
            self.wf(),
        ensures
            res.0@ == self.spec_content().subrange(
                FILE_AUTHENTICATION_SIZE as int,
                self.spec_front().content_at as int,
            ),
            res.1@ == self.spec_front().header_signature,
    {
        (
            self.front.signed_header(buf::bytes_slice(&self.content)),
            self.front.authentication.header_signature.as_slice(),
        )
    }

    /// The bytes that the content's signature is about, and the signature.
    pub fn signed_content(&self) -> (res: (&[u8], &[u8]))
        requires
            self.wf(),
        ensures
            res.0@ == self.spec_content().skip(self.spec_front().content_at as int),
            res.1@ == self.spec_front().content_signature,
    {
        let all = buf::bytes_slice(&self.content);
        let content = vstd::slice::slice_subrange(all, self.front.content_at, all.len());
        assert(content@ =~= self.spec_content().skip(self.spec_front().content_at as int));
        (content, self.front.authentication.content_signature.as_slice())
    }

    /// The content, once its signatures were checked, as far as they are.
    pub fn payload(&self, verify: bool, header_ok: bool, content_ok: bool) -> (res: Result<
        Payload,
        StoreError,
    >)
        requires
            self.wf(),
        ensures
            verify && !(header_ok && content_ok) ==> res == Err::<Payload, StoreError>(
                StoreError::SignatureVerificationFailed,
            ),
            !verify || header_ok && content_ok ==> match (
                res,
                payload_of(
                    self.spec_front().header.encryption,
                    self.spec_content().skip(self.spec_front().content_at as int),
                ),
            ) {
                (Ok(p), Ok(v)) => p@ == v,
                (Err(e), Err(v)) => e == v,
                _ => false,
            },
    {
        if verify && !(header_ok && content_ok) {
            return Err(StoreError::SignatureVerificationFailed);
        }
        let len: usize = buf::bytes_slice(&self.content).len();
        let at: usize = self.front.content_at;
        let ghost content = self.spec_content().skip(at as int);
        if !self.front.header.is_encrypted() {
            let plain = buf::bytes_part(&self.content, at, len);
            assert(buf::bytes_of(plain) =~= content);
            return Ok(Payload::Plain(plain));
        }
        if len - at < NONCE_SIZE {
            return Err(StoreError::Decrypt);
        }
        let nonce = buf::bytes_part(&self.content, at, at + NONCE_SIZE);
        let ciphertext = buf::bytes_part(&self.content, at + NONCE_SIZE, len);
        assert(buf::bytes_of(nonce) =~= content.take(NONCE_SIZE as int));
        assert(buf::bytes_of(ciphertext) =~= content.skip(NONCE_SIZE as int));
        Ok(Payload::Encrypted { nonce, ciphertext })
    }

    /// How the content is decompressed, once it is decrypted.
    pub fn codec(&self) -> (res: Codec)
        ensures
            res == codec_of(self.spec_front().header.compression),
    {
        match self.front.header.compression() {
            CompressionType::NoCompression => Codec::AsIs,
            CompressionType::Gzip => Codec::Zstd,
            CompressionType::Xz => Codec::Xz,
            CompressionType::Zstd => Codec::Zstd,
        }
    }
}

/// The log file's bytes, once decrypting was tried.
pub fn decrypted(result: Option<Bytes>) -> (res: Result<Bytes, StoreError>)
    ensures
        res == (match result {
            Some(b) => Ok::<Bytes, StoreError>(b),
            None => Err(StoreError::Decrypt),
        }),
{
    match result {
        Some(b) => Ok(b),
        None => Err(StoreError::Decrypt),
    }
}

/// The log header in an archived file, once its log bytes were extracted. A
/// file that is too short or damaged has none.
pub fn wal_header_of(file_len: usize, wal_bytes: Result<Bytes, StoreError>) -> (res: Option<
    WalHeader,
>)
    ensures
        match res {
            Some(h) => {
                &&& file_len >= MIN_STORE_FILE_SIZE
                &&& wal_bytes matches Ok(b) && wal_header_v1::parse_any(buf::bytes_of(b)) matches Ok(
                    (v, _),
                ) && h@ == v.header
            },
            None => {
                ||| file_len < MIN_STORE_FILE_SIZE
                ||| wal_bytes is Err
                ||| wal_bytes matches Ok(b) && wal_header_v1::parse_any(buf::bytes_of(b)) is Err
            },
        },
{
    if file_len < MIN_STORE_FILE_SIZE {
        return None;
    }
    match wal_bytes {
        Ok(b) => match reader::get_wal_header(&b) {
            Ok(h) => Some(h),
            Err(_) => None,
        },
        Err(_) => None,
    }
}

// ---------------------------------------------------------------------------
// Writing.

/// How a log file is compressed, unless it cannot be. Only one compression can
/// be written.
pub open spec fn written_with(compression: CompressionType) -> Option<Codec> {
    match compression {
        CompressionType::NoCompression => Some(Codec::AsIs),
        CompressionType::Zstd => Some(Codec::Zstd),
        _ => None,
    }
}

/// How a log file is compressed, unless it cannot be.
pub fn compression_step(compression: CompressionType) -> (res: Option<Codec>)
    ensures
        res == written_with(compression),
{
    match compression {
        CompressionType::NoCompression => Some(Codec::AsIs),
        CompressionType::Zstd => Some(Codec::Zstd),
        _ => None,
    }
}

/// Encrypted content: the nonce, and what was encrypted with it.
pub fn sealed(nonce: &[u8], ciphertext: &[u8]) -> (res: Bytes)
    requires
        nonce@.len() + ciphertext@.len() <= isize::MAX,
    ensures
        buf::bytes_of(res) == nonce@ + ciphertext@,
{
    let mut out = buf::empty_buffer();
    buf::buffer_extend(&mut out, nonce);
    buf::buffer_extend(&mut out, ciphertext);
    let res = buf::buffer_freeze(out);
    assert(buf::bytes_of(res) =~= nonce@ + ciphertext@);
    res
}

/// The header of an archived file, for a log file with these entries.
pub open spec fn store_view(
    compression: CompressionType,
    encryption: EncryptionType,
    entries_before: nat,
    num_entries: nat,
) -> StoreView {
    StoreView {
        compression,
        encryption,
        num_entries_before: entries_before,
        num_entries,
    }
}

/// The header bytes of the archived file for a log file.
pub fn store_file_header(wal_file: &WalFile, entries_before: &UintN, num_entries: &UintN) -> (res:
    Result<Bytes, StoreHeaderV1Error>)
    ensures
        match (
            res,
            store_header_v1::converted(
                store_view(
                    wal_file.compression_type,
                    wal_file.encryption_type,
                    entries_before@,
                    num_entries@,
                ),
            ),
        ) {
            (Ok(b), Ok(h)) => buf::bytes_of(b) == store_header_v1::header_bytes(h),
            (Err(e), Err(v)) => e == v,
            _ => false,
        },
        res is Ok <==> entries_before@ <= u64::MAX && num_entries@ <= u64::MAX,
        res matches Ok(b) ==> forall|rest: Seq<u8>|
            (#[trigger] store_header_v1::parse_any(buf::bytes_of(b) + rest)) matches Ok((v, n)) && {
                &&& v.header.compression == wal_file.compression_type
                &&& v.header.encryption == wal_file.encryption_type
                &&& v.header.num_entries_before == entries_before@
                &&& v.header.num_entries == num_entries@
                &&& n == buf::bytes_of(b).len()
            },
{
    let header = StoreHeader::new(
        wal_file.compression_type,
        wal_file.encryption_type,
        entries_before.clone(),
        num_entries.clone(),
    );
    let header_v1 = match StoreHeaderV1::from_v0(&header) {
        Ok(h) => h,
        Err(e) => {
            return Err(e);
        },
    };
    let mut out = buf::empty_buffer();
    match header_v1.write_to_bytes(&mut out) {
        Ok(_) => {
            let b = buf::buffer_freeze(out);
            assert(buf::bytes_of(b) =~= store_header_v1::header_bytes(header_v1));
            proof {
                assert forall|rest: Seq<u8>|
                    #[trigger] store_header_v1::parse_any(buf::bytes_of(b) + rest) == Ok::<
                        (AnyStoreView, nat),
                        AnyStoreHeaderError,
                    >(
                        (
                            AnyStoreView { version: 1, header: header_v1@ },
                            buf::bytes_of(b).len(),
                        ),
                    ) by {
                    store_header_v1::header_roundtrip(header_v1, rest);
                }
            }
            Ok(b)
        },
        Err(e) => Err(e),
    }
}

/// The bytes of an archived file.
pub open spec fn store_file(
    header_signature: Seq<u8>,
    content_signature: Seq<u8>,
    header: Seq<u8>,
    content: Seq<u8>,
) -> Seq<u8> {
    store_header::authentication_bytes(header_signature, content_signature) + header + content
}

/// The signature block of an archived file, which comes before its header and
/// its content.
pub fn store_file_front(header_signature: Vec<u8>, content_signature: Vec<u8>) -> (res: Bytes)
    requires
        header_signature@.len() == SIGNATURE_SIZE,
        content_signature@.len() == SIGNATURE_SIZE,
    ensures
        buf::bytes_of(res) == store_header::authentication_bytes(
            header_signature@,
            content_signature@,
        ),
{
    let ghost h = header_signature@;
    let ghost c = content_signature@;
    let mut out = buf::empty_buffer();
    FileAuthentication::new(header_signature, content_signature).write_to_bytes(&mut out);
    let res = buf::buffer_freeze(out);
    assert(buf::bytes_of(res) =~= store_header::authentication_bytes(h, c));
    res
}

/// The last id of a log file, which is the one before the next file's first.
pub fn last_entry_id(entries_before: &UintN, num_entries: &UintN) -> (res: Result<
    UintN,
    UintNError,
>)
    ensures
        match res {
            Ok(id) => entries_before@ + num_entries@ > 0 && id@ == entries_before@ + num_entries@
                - 1,
            Err(e) => entries_before@ + num_entries@ == 0 && e == UintNError::Underflow,
        },
{
    entries_before.add(num_entries).sub(&UintN::one())
}

/// A step of archiving a log file.
#[derive(Debug, Clone, Copy, PartialEq, Eq, Structural)]
pub enum ArchiveStep {
    ReadLog,
    CompressAndEncrypt,
    WriteStore,
    FindLastId,
    RecordRange,
    DeleteLog,
    /// The log file is archived and, if that succeeded, deleted.
    Finished,
    /// The log file stays.
    Stopped,
}

/// The step after another, which succeeded or failed. A range that could not
/// be recorded is no reason to keep the log file: it can be read again from
/// the archived file.
pub open spec fn step_after(step: ArchiveStep, ok: bool) -> ArchiveStep {
    match step {
        ArchiveStep::ReadLog => if ok {
            ArchiveStep::CompressAndEncrypt
        } else {
            ArchiveStep::Stopped
        },
        ArchiveStep::CompressAndEncrypt => if ok {
            ArchiveStep::WriteStore
        } else {
            ArchiveStep::Stopped
        },
        ArchiveStep::WriteStore => if ok {
            ArchiveStep::FindLastId
        } else {
            ArchiveStep::Stopped
        },
        ArchiveStep::FindLastId => if ok {
            ArchiveStep::RecordRange
        } else {
            ArchiveStep::Stopped
        },
        ArchiveStep::RecordRange => ArchiveStep::DeleteLog,
        ArchiveStep::DeleteLog => ArchiveStep::Finished,
        ArchiveStep::Finished => ArchiveStep::Finished,
        ArchiveStep::Stopped => ArchiveStep::Stopped,
    }
}

/// The step that steps with these results lead to.
pub open spec fn step_after_all(results: Seq<bool>) -> ArchiveStep
    decreases results.len(),
{
    if results.len() == 0 {
        ArchiveStep::ReadLog
    } else {
        step_after(step_after_all(results.drop_last()), results.last())
    }
}

impl ArchiveStep {
    /// The step after this one, which succeeded or failed.
    pub fn next(self, ok: bool) -> (res: ArchiveStep)
        ensures
            res == step_after(self, ok),
    {
        match self {
            ArchiveStep::ReadLog => if ok {
                ArchiveStep::CompressAndEncrypt
            } else {
                ArchiveStep::Stopped
            },
            ArchiveStep::CompressAndEncrypt => if ok {
                ArchiveStep::WriteStore
            } else {
                ArchiveStep::Stopped
            },
            ArchiveStep::WriteStore => if ok {
                ArchiveStep::FindLastId
            } else {
                ArchiveStep::Stopped
            },
            ArchiveStep::FindLastId => if ok {
                ArchiveStep::RecordRange
            } else {
                ArchiveStep::Stopped
            },
            ArchiveStep::RecordRange => ArchiveStep::DeleteLog,
            ArchiveStep::DeleteLog => ArchiveStep::Finished,
            ArchiveStep::Finished => ArchiveStep::Finished,
            ArchiveStep::Stopped => ArchiveStep::Stopped,
        }
    }
}

/// Whether a file in the directory of unfinished files is one, by its name:
/// its extension says so.
pub fn is_unfinished(name: &str) -> (res: bool)
    ensures
        res == (name@.len() > 4 && name@.skip(name@.len() - 4) == ".tmp"@),
{
    proof {
        reveal_strlit(".tmp");
    }
    let len: usize = name.unicode_len();
    if len <= 4 {
        return false;
    }
    let res = name.get_char(len - 4) == '.' && name.get_char(len - 3) == 't' && name.get_char(
        len - 2,
    ) == 'm' && name.get_char(len - 1) == 'p';
    proof {
        let tail = name@.skip(name@.len() - 4);
        if res {
            assert(tail =~= ".tmp"@);
        } else {
            assert(tail[0] == name@[len - 4]);
            assert(tail[1] == name@[len - 3]);
            assert(tail[2] == name@[len - 2]);
            assert(tail[3] == name@[len - 1]);
        }
    }
    res
}

// ---------------------------------------------------------------------------
// What always holds.

/// An archived file reads back: its signatures, its header and its content are
/// those that it was written with.
pub proof fn archived_file_reads_back(
    header_signature: Seq<u8>,
    content_signature: Seq<u8>,
    h: StoreHeaderV1,
    content: Seq<u8>,
)
    requires
        header_signature.len() == SIGNATURE_SIZE,
        content_signature.len() == SIGNATURE_SIZE,
    ensures
        ({
            let header = store_header_v1::header_bytes(h);
            let file = store_file(header_signature, content_signature, header, content);
            let at = (FILE_AUTHENTICATION_SIZE + header.len()) as nat;
            &&& ranges::parse_front(file) == Ok::<FrontView, RangeStoreError>(
                FrontView {
                    header_signature,
                    content_signature,
                    version: 1,
                    header: h@,
                    content_at: at,
                },
            )
            &&& file.subrange(FILE_AUTHENTICATION_SIZE as int, at as int) == header
            &&& file.skip(at as int) == content
        }),
{
    let header = store_header_v1::header_bytes(h);
    let block = store_header::authentication_bytes(header_signature, content_signature);
    let file = store_file(header_signature, content_signature, header, content);
    assert(file =~= block + (header + content));
    store_header::authentication_roundtrip(header_signature, content_signature, header + content);
    assert(file.skip(FILE_AUTHENTICATION_SIZE as int) =~= header + content);
    store_header_v1::header_roundtrip(h, content);
    let at = FILE_AUTHENTICATION_SIZE + header.len();
    assert(file.subrange(FILE_AUTHENTICATION_SIZE as int, at as int) =~= header);
    assert(file.skip(at as int) =~= content);
}

/// What was encrypted is handed to decryption with the nonce that it was
/// encrypted with.
pub proof fn sealed_content_opens(encryption: EncryptionType, nonce: Seq<u8>, ciphertext: Seq<u8>)
    requires
        nonce.len() == NONCE_SIZE,
        encryption != EncryptionType::NoEncryption,
    ensures
        payload_of(encryption, nonce + ciphertext) == Ok::<PayloadView, StoreError>(
            PayloadView::Encrypted { nonce, ciphertext },
        ),
{
    assert((nonce + ciphertext).take(NONCE_SIZE as int) =~= nonce);
    assert((nonce + ciphertext).skip(NONCE_SIZE as int) =~= ciphertext);
}

/// What can be written is decompressed as it was compressed.
pub proof fn written_compression_is_read(compression: CompressionType)
    ensures
        written_with(compression) matches Some(codec) ==> codec_of(compression) == codec,
{
}

/// The content of the archived file for a log file.
pub open spec fn prepared(
    compression: CompressionType,
    encryption: EncryptionType,
    log: Seq<u8>,
    compress: spec_fn(Seq<u8>) -> Seq<u8>,
    nonce: Seq<u8>,
    encrypt: spec_fn(Seq<u8>) -> Seq<u8>,
) -> Seq<u8> {
    let data = if written_with(compression) == Some(Codec::Zstd) {
        compress(log)
    } else {
        log
    };
    if encryption == EncryptionType::NoEncryption {
        data
    } else {
        nonce + encrypt(data)
    }
}

/// The log file that the content of an archived file is made into again.
pub open spec fn recovered(
    compression: CompressionType,
    encryption: EncryptionType,
    content: Seq<u8>,
    decrypt: spec_fn(Seq<u8>, Seq<u8>) -> Seq<u8>,
    decompress: spec_fn(Codec, Seq<u8>) -> Seq<u8>,
) -> Result<Seq<u8>, StoreError> {
    match payload_of(encryption, content) {
        Err(e) => Err(e),
        Ok(p) => {
            let data = match p {
                PayloadView::Plain(d) => d,
                PayloadView::Encrypted { nonce, ciphertext } => decrypt(nonce, ciphertext),
            };
            Ok(
                if codec_of(compression) == Codec::AsIs {
                    data
                } else {
                    decompress(codec_of(compression), data)
                },
            )
        },
    }
}

/// A log file that was archived is recovered, byte for byte, from its archived
/// file, if decompressing undoes compressing and decrypting with the nonce
/// undoes encrypting.
pub proof fn archived_log_is_recovered(
    compression: CompressionType,
    encryption: EncryptionType,
    log: Seq<u8>,
    compress: spec_fn(Seq<u8>) -> Seq<u8>,
    decompress: spec_fn(Codec, Seq<u8>) -> Seq<u8>,
    nonce: Seq<u8>,
    encrypt: spec_fn(Seq<u8>) -> Seq<u8>,
    decrypt: spec_fn(Seq<u8>, Seq<u8>) -> Seq<u8>,
)
    requires
        written_with(compression) is Some,
        nonce.len() == NONCE_SIZE,
        decompress(Codec::Zstd, compress(log)) == log,
        forall|d: Seq<u8>| decrypt(nonce, #[trigger] encrypt(d)) == d,
    ensures
        recovered(
            compression,
            encryption,
            prepared(compression, encryption, log, compress, nonce, encrypt),
            decrypt,
            decompress,
        ) == Ok::<Seq<u8>, StoreError>(log),
{
    let data = if written_with(compression) == Some(Codec::Zstd) {
        compress(log)
    } else {
        log
    };
    if encryption != EncryptionType::NoEncryption {
        sealed_content_opens(encryption, nonce, encrypt(data));
    }
}

/// The log file that is extracted from an archived file. `good` says whether a
/// signature is that of some bytes.
pub open spec fn extracted(
    file: Seq<u8>,
    verify: bool,
    good: spec_fn(Seq<u8>, Seq<u8>) -> bool,
    decrypt: spec_fn(Seq<u8>, Seq<u8>) -> Seq<u8>,
    decompress: spec_fn(Codec, Seq<u8>) -> Seq<u8>,
) -> Result<Seq<u8>, StoreError> {
    match ranges::parse_front(file) {
        Err(e) => Err(front_error(e)),
        Ok(front) => {
            let header = file.subrange(FILE_AUTHENTICATION_SIZE as int, front.content_at as int);
            let content = file.skip(front.content_at as int);
            if verify && !(good(header, front.header_signature) && good(
                content,
                front.content_signature,
            )) {
                Err(StoreError::SignatureVerificationFailed)
            } else {
                recovered(
                    front.header.compression,
                    front.header.encryption,
                    content,
                    decrypt,
                    decompress,
                )
            }
        },
    }
}

/// From the archived file of a log file that log file is extracted, byte for
/// byte, whether or not signatures are checked, if checking accepts what was
/// signed, decompressing undoes compressing, and decrypting with the nonce
/// undoes encrypting.
pub proof fn archived_file_is_extracted(
    h: StoreHeaderV1,
    log: Seq<u8>,
    verify: bool,
    sign: spec_fn(Seq<u8>) -> Seq<u8>,
    good: spec_fn(Seq<u8>, Seq<u8>) -> bool,
    compress: spec_fn(Seq<u8>) -> Seq<u8>,
    decompress: spec_fn(Codec, Seq<u8>) -> Seq<u8>,
    nonce: Seq<u8>,
    encrypt: spec_fn(Seq<u8>) -> Seq<u8>,
    decrypt: spec_fn(Seq<u8>, Seq<u8>) -> Seq<u8>,
)
    requires
        written_with(h@.compression) is Some,
        nonce.len() == NONCE_SIZE,
        decompress(Codec::Zstd, compress(log)) == log,
        forall|d: Seq<u8>| decrypt(nonce, #[trigger] encrypt(d)) == d,
        forall|d: Seq<u8>| (#[trigger] sign(d)).len() == SIGNATURE_SIZE && good(d, sign(d)),
    ensures
        ({
            let header = store_header_v1::header_bytes(h);
            let content = prepared(
                h@.compression,
                h@.encryption,
                log,
                compress,
                nonce,
                encrypt,
            );
            let file = store_file(sign(header), sign(content), header, content);
            extracted(file, verify, good, decrypt, decompress) == Ok::<Seq<u8>, StoreError>(log)
        }),
{
    let header = store_header_v1::header_bytes(h);
    let content = prepared(h@.compression, h@.encryption, log, compress, nonce, encrypt);
    archived_file_reads_back(sign(header), sign(content), h, content);
    archived_log_is_recovered(
        h@.compression,
        h@.encryption,
        log,
        compress,
        decompress,
        nonce,
        encrypt,
        decrypt,
    );
}

/// With signatures checked, nothing is extracted from a file whose header or
/// content is not what was signed; and nothing from one whose encrypted content
/// is too short to have a nonce.
pub proof fn damaged_archive_is_refused(
    h: StoreHeaderV1,
    header_signature: Seq<u8>,
    content_signature: Seq<u8>,
    content: Seq<u8>,
    good: spec_fn(Seq<u8>, Seq<u8>) -> bool,
    decrypt: spec_fn(Seq<u8>, Seq<u8>) -> Seq<u8>,
    decompress: spec_fn(Codec, Seq<u8>) -> Seq<u8>,
)
    requires
        header_signature.len() == SIGNATURE_SIZE,
        content_signature.len() == SIGNATURE_SIZE,
    ensures
        ({
            let header = store_header_v1::header_bytes(h);
            let file = store_file(header_signature, content_signature, header, content);
            let signed = good(header, header_signature) && good(content, content_signature);
            &&& !signed ==> extracted(file, true, good, decrypt, decompress) == Err::<
                Seq<u8>,
                StoreError,
            >(StoreError::SignatureVerificationFailed)
            &&& h@.encryption != EncryptionType::NoEncryption && content.len() < NONCE_SIZE
                ==> extracted(file, false, good, decrypt, decompress) == Err::<
                Seq<u8>,
                StoreError,
            >(StoreError::Decrypt)
        }),
{
    archived_file_reads_back(header_signature, content_signature, h, content);
}

/// The range of an archived file is found in its first bytes.
pub proof fn range_is_in_the_first_bytes(
    header_signature: Seq<u8>,
    content_signature: Seq<u8>,
    h: StoreHeaderV1,
    content: Seq<u8>,
)
    requires
        header_signature.len() == SIGNATURE_SIZE,
        content_signature.len() == SIGNATURE_SIZE,
    ensures
        ({
            let file = store_file(
                header_signature,
                content_signature,
                store_header_v1::header_bytes(h),
                content,
            );
            let n = if file.len() < ranges::RANGE_READ_SIZE {
                file.len() as int
            } else {
                ranges::RANGE_READ_SIZE as int
            };
            ranges::parse_front(file.take(n)) == ranges::parse_front(file)
        }),
{
    let header = store_header_v1::header_bytes(h);
    let block = store_header::authentication_bytes(header_signature, content_signature);
    let file = store_file(header_signature, content_signature, header, content);
    let n = if file.len() < ranges::RANGE_READ_SIZE {
        file.len() as int
    } else {
        ranges::RANGE_READ_SIZE as int
    };
    store_header_v1::header_size_bounds(h);
    store_header::authentication_roundtrip(header_signature, content_signature, header + content);
    let m = n - block.len() - header.len();
    let part = content.take(m);
    assert(file.take(n) =~= store_file(header_signature, content_signature, header, part));
    archived_file_reads_back(header_signature, content_signature, h, content);
    archived_file_reads_back(header_signature, content_signature, h, part);
}

/// A log file is deleted only if it was read, compressed and encrypted, and
/// written to its archived file, and each of these succeeded.
pub proof fn log_is_deleted_only_once_archived(results: Seq<bool>)
    requires
        step_after_all(results) is DeleteLog,
    ensures
        results.len() == 5,
        results[0] && results[1] && results[2] && results[3],
{
    reveal_with_fuel(step_after_all, 7);
    lemma_depth(results);
    let a = results.drop_last();
    let b = a.drop_last();
    let c = b.drop_last();
    let d = c.drop_last();
    lemma_depth(a);
    lemma_depth(b);
    lemma_depth(c);
    lemma_depth(d);
    lemma_depth(d.drop_last());
}

spec fn depth(step: ArchiveStep) -> nat {
    match step {
        ArchiveStep::ReadLog => 0,
        ArchiveStep::CompressAndEncrypt => 1,
        ArchiveStep::WriteStore => 2,
        ArchiveStep::FindLastId => 3,
        ArchiveStep::RecordRange => 4,
        ArchiveStep::DeleteLog => 5,
        ArchiveStep::Finished => 6,
        ArchiveStep::Stopped => 0,
    }
}

proof fn lemma_depth(results: Seq<bool>)
    ensures
        ({
            let s = step_after_all(results);
            s is Stopped || s is Finished || depth(s) == results.len()
        }),
        results.len() == 0 ==> step_after_all(results) is ReadLog,
    decreases results.len(),
{
    if results.len() > 0 {
        lemma_depth(results.drop_last());
    }
}

} // verus!
