//! Queue names, read positions, and the codes that files carry.

use bytes::Bytes;
use vstd::prelude::*;
use crate::buf;
use crate::text;
use crate::uintn::UintN;

verus! {

/// A queue's absolute path.
#[derive(Debug, PartialEq, Eq, Hash, PartialOrd, Ord)]
pub struct QueueId {
    path: String,
}

impl View for QueueId {
    type V = Seq<char>;

    closed spec fn view(&self) -> Seq<char> {
        self.path@
    }
}

impl Clone for QueueId {
    fn clone(&self) -> (res: Self)
        ensures
            res@ == self@,
    {
        QueueId { path: self.path.clone() }
    }
}

/// A storage prefix without slashes around it and with one behind it, or
/// nothing if nothing is left of it.
pub open spec fn cloud_prefix(base_prefix: Seq<char>) -> Seq<char> {
    let prefix = text::trim_end(text::trim_start(base_prefix));
    if prefix.len() == 0 {
        prefix
    } else {
        prefix.push('/')
    }
}

/// A queue's path in cloud storage.
pub open spec fn cloud_queue_path(base_prefix: Seq<char>, queue: Seq<char>) -> Seq<char> {
    (cloud_prefix(base_prefix) + text::trim_start(queue)).push('/')
}

/// The cloud storage key of an archived file.
pub open spec fn cloud_key(
    base_prefix: Seq<char>,
    queue: Seq<char>,
    file_path: Seq<char>,
) -> Seq<char> {
    cloud_queue_path(base_prefix, queue) + text::trim_start(file_path)
}

/// The key of an archived file is its queue's path and a part that depends on
/// the file alone. That part does not begin with a slash, and ends in `.store`
/// where the file's path does.
pub proof fn cloud_key_is_path_and_file(
    base_prefix: Seq<char>,
    queue: Seq<char>,
    other_prefix: Seq<char>,
    other_queue: Seq<char>,
    file_path: Seq<char>,
)
    ensures
        exists|part: Seq<char>|
            {
                &&& cloud_key(base_prefix, queue, file_path) == #[trigger] (cloud_queue_path(
                    base_prefix,
                    queue,
                ) + part)
                &&& cloud_key(other_prefix, other_queue, file_path) == cloud_queue_path(
                    other_prefix,
                    other_queue,
                ) + part
                &&& part.len() > 0 ==> part[0] != '/'
                &&& text::ends_in(file_path, ".store"@) ==> text::ends_in(part, ".store"@)
            },
{
    reveal_strlit(".store");
    let part = text::trim_start(file_path);
    text::trimmed_text_keeps_its_end(file_path, ".store"@);
    assert(cloud_key(base_prefix, queue, file_path) == cloud_queue_path(base_prefix, queue)
        + part);
}

impl QueueId {
    fn normalize_cloud_prefix(base_prefix: &str) -> (res: String)
        ensures
            res@ == cloud_prefix(base_prefix@),
    {
        let prefix = text::trim_end_slashes(text::trim_start_slashes(base_prefix));
        if prefix.unicode_len() == 0 {
            let res = String::new();
            assert(res@ =~= cloud_prefix(base_prefix@));
            res
        } else {
            proof {
                reveal_strlit("/");
            }
            let mut res = String::from_str(prefix);
            res.append("/");
            assert(res@ =~= cloud_prefix(base_prefix@));
            res
        }
    }

    /// Whether both name the same queue.
    pub fn equals(&self, other: &QueueId) -> (res: bool)
        ensures
            res == (self@ == other@),
    {
        self.path == other.path
    }

    /// The absolute path.
    pub fn as_str(&self) -> (res: &str)
        ensures
            res@ == self@,
    {
        self.path.as_str()
    }

    /// What the queue's encryption keys are derived from.
    pub fn to_key_derivation_base(&self) -> (res: &str)
        ensures
            res@ == self@,
    {
        self.path.as_str()
    }

    /// The queue's path in cloud storage, such as
    /// `prefix/instance_id/queue_name/`.
    pub fn to_cloud_queue_path(&self, base_prefix: &str) -> (res: String)
        ensures
            res@ == cloud_queue_path(base_prefix@, self@),
    {
        let mut res = QueueId::normalize_cloud_prefix(base_prefix);
        res.append(text::trim_start_slashes(self.path.as_str()));
        proof {
            reveal_strlit("/");
        }
        res.append("/");
        assert(res@ =~= (cloud_prefix(base_prefix@) + text::trim_start(self@)).push('/'));
        res
    }

    /// The queue's directory under `prefix`.
    pub fn to_fs_path(&self, prefix: &str) -> (res: String)
        ensures
            res@ == text::joined(prefix@, text::trim_start(self@)),
    {
        text::join(prefix, text::trim_start_slashes(self.path.as_str()))
    }

    /// The directory of the queue's archived files, such as
    /// `/base/instance_id/queue_name/store`.
    pub fn to_store_dir(&self, base: &str) -> (res: String)
        ensures
            res@ == text::joined(text::joined(base@, text::trim_start(self@)), "store"@),
    {
        text::join(self.to_fs_path(base).as_str(), "store")
    }

    /// The archived file whose path within its directory is `file_path`, such
    /// as `/base/instance_id/queue_name/store/abc/def/123.store`.
    pub fn to_store_path(&self, base: &str, file_path: &str) -> (res: String)
        ensures
            res@ == text::joined(
                text::joined(text::joined(base@, text::trim_start(self@)), "store"@),
                text::trim_start(file_path@),
            ),
    {
        text::join(self.to_store_dir(base).as_str(), text::trim_start_slashes(file_path))
    }

    /// The directory of the queue's log files, such as
    /// `/base/instance_id/queue_name/wal`.
    pub fn to_wal_dir(&self, base: &str) -> (res: String)
        ensures
            res@ == text::joined(text::joined(base@, text::trim_start(self@)), "wal"@),
    {
        text::join(self.to_fs_path(base).as_str(), "wal")
    }

    /// The log file whose path within its directory is `file_path`, such as
    /// `/base/instance_id/queue_name/wal/123.wal`.
    pub fn to_wal_path(&self, base: &str, file_path: &str) -> (res: String)
        ensures
            res@ == text::joined(
                text::joined(text::joined(base@, text::trim_start(self@)), "wal"@),
                text::trim_start(file_path@),
            ),
    {
        text::join(self.to_wal_dir(base).as_str(), text::trim_start_slashes(file_path))
    }

    /// The cloud storage key of the archived file whose path within its
    /// directory is `file_path`, such as
    /// `prefix/instance_id/queue_name/abc/def/123.store`. Log files are not
    /// kept in cloud storage.
    pub fn to_cloud_key(&self, base_prefix: &str, file_path: &str) -> (res: String)
        ensures
            res@ == cloud_key(base_prefix@, self@, file_path@),
    {
        let mut res = self.to_cloud_queue_path(base_prefix);
        res.append(text::trim_start_slashes(file_path));
        res
    }
}

/// Turns queue paths into queue ids.
#[derive(Debug)]
pub struct QueueIdResolver {
    instance_id: String,
}

impl View for QueueIdResolver {
    type V = Seq<char>;

    closed spec fn view(&self) -> Seq<char> {
        self.instance_id@
    }
}

impl Clone for QueueIdResolver {
    fn clone(&self) -> (res: Self)
        ensures
            res@ == self@,
    {
        QueueIdResolver { instance_id: self.instance_id.clone() }
    }
}

/// The absolute path that `path` names on an instance.
pub open spec fn resolved(instance_id: Seq<char>, path: Seq<char>) -> Seq<char> {
    if path.len() > 0 && path[0] == '/' {
        path
    } else {
        (seq!['/'] + instance_id).push('/') + path
    }
}

impl QueueIdResolver {
    pub fn new(instance_id: &str) -> (res: Self)
        ensures
            res@ == instance_id@,
    {
        QueueIdResolver { instance_id: String::from_str(instance_id) }
    }

    pub fn instance_id(&self) -> (res: &str)
        ensures
            res@ == self@,
    {
        self.instance_id.as_str()
    }

    /// The queue that `path` names. A path that starts with a slash is taken
    /// as it is; any other belongs to this instance.
    pub fn resolve(&self, path: &str) -> (res: QueueId)
        ensures
            res@ == resolved(self@, path@),
    {
        if path.unicode_len() > 0 && path.get_char(0) == '/' {
            return QueueId { path: String::from_str(path) };
        }
        proof {
            reveal_strlit("/");
        }
        let mut absolute = String::from_str("/");
        absolute.append(self.instance_id.as_str());
        absolute.append("/");
        absolute.append(path);
        assert(absolute@ =~= resolved(self@, path@));
        QueueId { path: absolute }
    }
}

/// Resolving a resolved path changes nothing, whatever the instance.
pub proof fn resolved_is_absolute(instance_id: Seq<char>, other_id: Seq<char>, path: Seq<char>)
    ensures
        resolved(instance_id, path).len() > 0,
        resolved(instance_id, path)[0] == '/',
        resolved(other_id, resolved(instance_id, path)) == resolved(instance_id, path),
{
}

/// Where an entry was read from.
#[derive(Debug, Clone, Copy, PartialEq, Eq, Structural)]
pub enum DataSource {
    NoSource,
    Cloud,
    DiskStore,
    DiskWal,
    Memory,
}

/// How a file's contents are compressed.
#[derive(Debug, Clone, Copy, PartialEq, Eq, Structural)]
pub enum CompressionType {
    NoCompression,
    Gzip,
    Xz,
    Zstd,
}

/// The number that stands for a compression in a file.
pub open spec fn compression_code(c: CompressionType) -> u64 {
    match c {
        CompressionType::NoCompression => 0,
        CompressionType::Gzip => 1,
        CompressionType::Xz => 2,
        CompressionType::Zstd => 3,
    }
}

/// The compression that a number stands for.
pub open spec fn compression_of(code: u64) -> Option<CompressionType> {
    if code == 0 {
        Some(CompressionType::NoCompression)
    } else if code == 1 {
        Some(CompressionType::Gzip)
    } else if code == 2 {
        Some(CompressionType::Xz)
    } else if code == 3 {
        Some(CompressionType::Zstd)
    } else {
        None
    }
}

impl CompressionType {
    pub fn code(self) -> (res: u64)
        ensures
            res == compression_code(self),
    {
        match self {
            CompressionType::NoCompression => 0,
            CompressionType::Gzip => 1,
            CompressionType::Xz => 2,
            CompressionType::Zstd => 3,
        }
    }

    /// The compression that `code` stands for, if any.
    pub fn from_code(code: u64) -> (res: Option<CompressionType>)
        ensures
            res == compression_of(code),
    {
        match code {
            0 => Some(CompressionType::NoCompression),
            1 => Some(CompressionType::Gzip),
            2 => Some(CompressionType::Xz),
            3 => Some(CompressionType::Zstd),
            _ => None,
        }
    }
}

impl TryFrom<u64> for CompressionType {
    type Error = String;

    fn try_from(value: u64) -> (res: Result<Self, String>)
        ensures
            match res {
                Ok(c) => compression_of(value) == Some(c),
                Err(e) => compression_of(value) is None && e@ == "Unsupported compression type: "@
                    + text::decimal(value as nat),
            },
    {
        match CompressionType::from_code(value) {
            Some(c) => Ok(c),
            None => Err(text::with_number("Unsupported compression type: ", value)),
        }
    }
}

impl vstd::std_specs::convert::TryFromSpecImpl<u64> for CompressionType {
    open spec fn obeys_try_from_spec() -> bool {
        false
    }

    open spec fn try_from_spec(v: u64) -> Result<Self, String> {
        arbitrary()
    }
}

impl From<CompressionType> for u64 {
    fn from(v: CompressionType) -> (res: u64) {
        v.code()
    }
}

impl vstd::std_specs::convert::FromSpecImpl<CompressionType> for u64 {
    open spec fn obeys_from_spec() -> bool {
        true
    }

    open spec fn from_spec(v: CompressionType) -> u64 {
        compression_code(v)
    }
}

/// How a file's contents are encrypted.
#[derive(Debug, Clone, Copy, PartialEq, Eq, Structural)]
pub enum EncryptionType {
    NoEncryption,
    Aes,
}

/// The number that stands for an encryption in a file.
pub open spec fn encryption_code(c: EncryptionType) -> u64 {
    match c {
        EncryptionType::NoEncryption => 0,
        EncryptionType::Aes => 1,
    }
}

/// The encryption that a number stands for.
pub open spec fn encryption_of(code: u64) -> Option<EncryptionType> {
    if code == 0 {
        Some(EncryptionType::NoEncryption)
    } else if code == 1 {
        Some(EncryptionType::Aes)
    } else {
        None
    }
}

impl EncryptionType {
    pub fn code(self) -> (res: u64)
        ensures
            res == encryption_code(self),
    {
        match self {
            EncryptionType::NoEncryption => 0,
            EncryptionType::Aes => 1,
        }
    }

    /// The encryption that `code` stands for, if any.
    pub fn from_code(code: u64) -> (res: Option<EncryptionType>)
        ensures
            res == encryption_of(code),
    {
        match code {
            0 => Some(EncryptionType::NoEncryption),
            1 => Some(EncryptionType::Aes),
            _ => None,
        }
    }
}

impl TryFrom<u64> for EncryptionType {
    type Error = String;

    fn try_from(value: u64) -> (res: Result<Self, String>)
        ensures
            match res {
                Ok(c) => encryption_of(value) == Some(c),
                Err(e) => encryption_of(value) is None && e@ == "Unsupported encryption type: "@
                    + text::decimal(value as nat),
            },
    {
        match EncryptionType::from_code(value) {
            Some(c) => Ok(c),
            None => Err(text::with_number("Unsupported encryption type: ", value)),
        }
    }
}

impl vstd::std_specs::convert::TryFromSpecImpl<u64> for EncryptionType {
    open spec fn obeys_try_from_spec() -> bool {
        false
    }

    open spec fn try_from_spec(v: u64) -> Result<Self, String> {
        arbitrary()
    }
}

impl From<EncryptionType> for u64 {
    fn from(v: EncryptionType) -> (res: u64) {
        v.code()
    }
}

impl vstd::std_specs::convert::FromSpecImpl<EncryptionType> for u64 {
    open spec fn obeys_from_spec() -> bool {
        true
    }

    open spec fn from_spec(v: EncryptionType) -> u64 {
        encryption_code(v)
    }
}

/// The codes and what they stand for are each other's inverse.
pub proof fn codes_roundtrip(c: CompressionType, e: EncryptionType, code: u64)
    ensures
        compression_of(compression_code(c)) == Some(c),
        encryption_of(encryption_code(e)) == Some(e),
        compression_of(code) matches Some(d) ==> compression_code(d) == code,
        encryption_of(code) matches Some(d) ==> encryption_code(d) == code,
{
}

/// Where a read starts: at an id, or so many entries before the newest.
#[derive(Debug, PartialEq, Eq)]
pub enum ReadPosition {
    Absolute(UintN),
    ShiftFromTail(UintN),
}

impl ReadPosition {
    pub fn absolute(offset: UintN) -> (res: Self)
        ensures
            res == ReadPosition::Absolute(offset),
    {
        ReadPosition::Absolute(offset)
    }

    pub fn shift_from_tail(offset: UintN) -> (res: Self)
        ensures
            res == ReadPosition::ShiftFromTail(offset),
    {
        ReadPosition::ShiftFromTail(offset)
    }

    pub fn offset(&self) -> (res: &UintN)
        ensures
            *res == match *self {
                ReadPosition::Absolute(o) => o,
                ReadPosition::ShiftFromTail(o) => o,
            },
    {
        match self {
            ReadPosition::Absolute(o) => o,
            ReadPosition::ShiftFromTail(o) => o,
        }
    }

    pub fn is_absolute(&self) -> (res: bool)
        ensures
            res == (*self is Absolute),
    {
        match self {
            ReadPosition::Absolute(_) => true,
            ReadPosition::ShiftFromTail(_) => false,
        }
    }

    pub fn is_tail_relative(&self) -> (res: bool)
        ensures
            res == (*self is ShiftFromTail),
    {
        match self {
            ReadPosition::Absolute(_) => false,
            ReadPosition::ShiftFromTail(_) => true,
        }
    }
}

impl Clone for ReadPosition {
    fn clone(&self) -> (res: Self)
        ensures
            match (*self, res) {
                (ReadPosition::Absolute(a), ReadPosition::Absolute(b)) => a@ == b@,
                (ReadPosition::ShiftFromTail(a), ReadPosition::ShiftFromTail(b)) => a@ == b@,
                _ => false,
            },
    {
        match self {
            ReadPosition::Absolute(o) => ReadPosition::Absolute(o.clone()),
            ReadPosition::ShiftFromTail(o) => ReadPosition::ShiftFromTail(o.clone()),
        }
    }
}

/// An entry that a read delivers.
#[derive(Debug)]
pub struct ReadEntry {
    pub id: UintN,
    pub data: Bytes,
    pub source: DataSource,
}

/// An entry's id, record and origin.
pub struct ReadEntryView {
    pub id: nat,
    pub data: Seq<u8>,
    pub source: DataSource,
}

impl View for ReadEntry {
    type V = ReadEntryView;

    open spec fn view(&self) -> ReadEntryView {
        ReadEntryView { id: self.id@, data: buf::bytes_of(self.data), source: self.source }
    }
}

impl ReadEntry {
    pub fn new(id: UintN, data: Bytes, source: DataSource) -> (res: Self)
        ensures
            res@ == (ReadEntryView { id: id@, data: buf::bytes_of(data), source }),
    {
        ReadEntry { id, data, source }
    }
}

} // verus!
