//! What is decided about the log files of a queue.

use std::time::Duration;
use vstd::prelude::*;
use crate::errors::WalError;
use crate::interval;
use crate::range_laws;
use crate::reader;
use crate::reader::WalErrorView;
use crate::types::{CompressionType, EncryptionType, QueueId};
use crate::uintn::UintN;
use crate::wal_file;
use crate::wal_header::{HeaderView, WalHeader};
use crate::wal_header_v1;

verus! {

/// How a queue's log is written. New files are always of the current format;
/// files of the first format stay readable.
#[derive(Debug)]
pub struct WalSettings {
    pub max_file_size: usize,
    pub write_buffer_size: usize,
    /// How long a record may be only in memory before a flush is started for
    /// it.
    pub write_interval: Duration,
    pub enable_fsync: bool,
    pub encryption_type: EncryptionType,
    pub compression_type: CompressionType,
}

impl Clone for WalSettings {
    fn clone(&self) -> (res: Self)
        ensures
            res == *self,
    {
        WalSettings {
            max_file_size: self.max_file_size,
            write_buffer_size: self.write_buffer_size,
            write_interval: self.write_interval,
            enable_fsync: self.enable_fsync,
            encryption_type: self.encryption_type,
            compression_type: self.compression_type,
        }
    }
}

impl Default for WalSettings {
    fn default() -> (res: Self)
        ensures
            res.max_file_size == 128 * 1024 * 1024,
            res.write_buffer_size == 128 * 1024 * 1024,
            interval::millis_of(res.write_interval) == 50,
            res.enable_fsync,
            res.encryption_type == EncryptionType::Aes,
            res.compression_type == CompressionType::Zstd,
    {
        WalSettings {
            max_file_size: 128 * 1024 * 1024,
            write_buffer_size: 128 * 1024 * 1024,
            write_interval: interval::millis(50),
            enable_fsync: true,
            encryption_type: EncryptionType::Aes,
            compression_type: CompressionType::Zstd,
        }
    }
}

/// A log file that is complete and may be archived.
#[derive(Debug)]
pub struct WalFile {
    pub queue_id: QueueId,
    pub file_id: UintN,
    pub encryption_type: EncryptionType,
    pub compression_type: CompressionType,
}

pub struct WalFileView {
    pub queue: Seq<char>,
    pub file_id: nat,
    pub encryption_type: EncryptionType,
    pub compression_type: CompressionType,
}

impl View for WalFile {
    type V = WalFileView;

    open spec fn view(&self) -> WalFileView {
        WalFileView {
            queue: self.queue_id@,
            file_id: self.file_id@,
            encryption_type: self.encryption_type,
            compression_type: self.compression_type,
        }
    }
}

/// Where a queue ends.
pub struct QueueEnd {
    pub file_id: UintN,
    pub header: WalHeader,
    pub last_entry_id: Option<UintN>,
}

/// The last entry id of a file, given what the file holds, or that there is no
/// such file. A file without a complete header has none.
pub open spec fn end_of(content: Option<Seq<u8>>, file_id: nat) -> Result<
    Option<nat>,
    WalErrorView,
> {
    match content {
        None => Ok(None),
        Some(c) => match reader::header_outcome(c, file_id) {
            Ok(_) => {
                let (any, n) = wal_header_v1::parse_any(c)->Ok_0;
                match reader::ends(reader::entries(c, any, n, 0)) {
                    Some((_, last)) => Ok(Some(last)),
                    None => Ok(None),
                }
            },
            Err(WalErrorView::Empty(_)) => Ok(None),
            Err(e) => Err(e),
        },
    }
}

/// A slice that may be missing, by its contents.
pub open spec fn content_view(content: Option<&[u8]>) -> Option<Seq<u8>> {
    match content {
        Some(c) => Some(c@),
        None => None,
    }
}

/// The last entry id of a file: none if the file has no entries, no complete
/// header or does not exist.
pub fn get_file_end(content: Option<&[u8]>, file_id: &UintN) -> (res: Result<
    Option<UintN>,
    WalError,
>)
    ensures
        match (res, end_of(content_view(content), file_id@)) {
            (Ok(Some(a)), Ok(Some(b))) => a@ == b,
            (Ok(None), Ok(None)) => true,
            (Err(e), Err(v)) => reader::is_error(e, v),
            _ => false,
        },
        content matches Some(c) ==> (wal_header_v1::parse_any(c@) matches Ok((h, n)) ==> {
            let s = reader::entries(c@, h, n, 0);
            res matches Ok(end) && match end {
                Some(last) => {
                    &&& s.len() > 0 && last@ == s[s.len() - 1].0
                    &&& wal_file::ascending(s) ==> forall|i: int|
                        0 <= i < s.len() ==> (#[trigger] s[i]).0 <= last@
                },
                None => s.len() == 0,
            }
        }),
{
    proof {
        if let Some(c) = content {
            if let Ok((h, n)) = wal_header_v1::parse_any(c@) {
                if wal_file::ascending(reader::entries(c@, h, n, 0)) {
                    range_laws::file_end_is_the_highest_id(c@, h, n, file_id@);
                }
            }
        }
    }
    match content {
        None => Ok(None),
        Some(c) => match reader::get_wal_range(c, file_id) {
            Ok((_, Some((_, last)))) => Ok(Some(last)),
            Ok((_, None)) => Ok(None),
            Err(WalError::WalEmpty(_)) => Ok(None),
            Err(e) => Err(e),
        },
    }
}

/// What a header looks like that is read from the first bytes of a file.
pub open spec fn head_outcome(content: Seq<u8>, file_id: nat) -> Result<HeaderView, WalErrorView> {
    let n = if content.len() < 128 {
        content.len() as int
    } else {
        128
    };
    reader::header_outcome(content.take(n), file_id)
}

/// The header of a file, or none if the file does not exist.
pub fn get_file_header(content: Option<&[u8]>, file_id: &UintN) -> (res: Result<
    Option<WalHeader>,
    WalError,
>)
    ensures
        match (res, content) {
            (Ok(None), None) => true,
            (Ok(Some(h)), Some(c)) => head_outcome(c@, file_id@) == Ok::<HeaderView, WalErrorView>(
                h@,
            ),
            (Err(e), Some(c)) => head_outcome(c@, file_id@) matches Err(v) && reader::is_error(
                e,
                v,
            ),
            _ => false,
        },
{
    match content {
        None => Ok(None),
        Some(c) => match reader::read_wal_header(c, file_id) {
            Ok(h) => Ok(Some(h)),
            Err(e) => Err(e),
        },
    }
}

/// How many entries come before a file.
pub fn get_entries_before(content: Option<&[u8]>, file_id: &UintN) -> (res: Result<
    UintN,
    WalError,
>)
    ensures
        match (res, content) {
            (Ok(n), Some(c)) => head_outcome(c@, file_id@) matches Ok(h) && n@
                == h.num_entries_before,
            (Err(e), Some(c)) => head_outcome(c@, file_id@) matches Err(v) && reader::is_error(
                e,
                v,
            ),
            (Err(e), None) => e == WalError::WalNotFound,
            _ => false,
        },
{
    match get_file_header(content, file_id) {
        Ok(Some(h)) => Ok(h.num_entries_before),
        Ok(None) => Err(WalError::WalNotFound),
        Err(e) => Err(e),
    }
}

/// The files older than the current one, as complete.
pub open spec fn older(
    queue: Seq<char>,
    ids: Seq<nat>,
    current: nat,
    compression_type: CompressionType,
    encryption_type: EncryptionType,
) -> Seq<WalFileView>
    decreases ids.len(),
{
    if ids.len() == 0 {
        Seq::empty()
    } else {
        let front = older(queue, ids.drop_last(), current, compression_type, encryption_type);
        if ids.last() < current {
            front.push(
                WalFileView { queue, file_id: ids.last(), encryption_type, compression_type },
            )
        } else {
            front
        }
    }
}

/// Files by their contents.
pub open spec fn file_views(files: Seq<WalFile>) -> Seq<WalFileView> {
    Seq::new(files.len(), |i: int| files[i]@)
}

/// Ids by their values.
pub open spec fn id_views(ids: Seq<UintN>) -> Seq<nat> {
    Seq::new(ids.len(), |i: int| ids[i]@)
}

/// The files of a queue that are older than the one that is written to, which
/// is not among them, in the order given.
pub fn old_files(
    queue: &QueueId,
    file_ids: &Vec<UintN>,
    current_file_id: &UintN,
    compression_type: CompressionType,
    encryption_type: EncryptionType,
) -> (files: Vec<WalFile>)
    ensures
        file_views(files@) == older(
            queue@,
            id_views(file_ids@),
            current_file_id@,
            compression_type,
            encryption_type,
        ),
{
    let ghost ids = id_views(file_ids@);
    let mut files: Vec<WalFile> = Vec::new();
    let mut i: usize = 0;
    assert(ids.take(0) =~= Seq::empty());
    assert(file_views(files@) =~= Seq::empty());
    while i < file_ids.len()
        invariant
            i <= file_ids@.len(),
            ids == id_views(file_ids@),
            file_views(files@) == older(
                queue@,
                ids.take(i as int),
                current_file_id@,
                compression_type,
                encryption_type,
            ),
        decreases file_ids@.len() - i,
    {
        proof {
            assert(ids.take(i + 1).drop_last() =~= ids.take(i as int));
            assert(ids[i as int] == file_ids@[i as int]@);
        }
        let ghost before = file_views(files@);
        if file_ids[i].is_less(current_file_id) {
            let file = WalFile {
                queue_id: queue.clone(),
                file_id: file_ids[i].clone(),
                encryption_type,
                compression_type,
            };
            files.push(file);
            assert(file_views(files@) =~= before.push(file@));
        }
        i = i + 1;
    }
    assert(ids.take(i as int) =~= ids);
    files
}

/// The lowest of the ids of a queue's files.
pub fn first_file_id(file_ids: &Vec<UintN>) -> (res: Option<UintN>)
    ensures
        match res {
            Some(id) => {
                &&& exists|i: int| 0 <= i < file_ids@.len() && (#[trigger] file_ids@[i])@ == id@
                &&& forall|i: int| 0 <= i < file_ids@.len() ==> id@ <= (#[trigger] file_ids@[i])@
            },
            None => file_ids@.len() == 0,
        },
{
    if file_ids.len() == 0 {
        return None;
    }
    let mut best: usize = 0;
    let mut i: usize = 1;
    while i < file_ids.len()
        invariant
            1 <= i <= file_ids@.len(),
            best < i,
            forall|j: int| 0 <= j < i ==> file_ids@[best as int]@ <= (#[trigger] file_ids@[j])@,
        decreases file_ids@.len() - i,
    {
        if file_ids[i].is_less(&file_ids[best]) {
            best = i;
        }
        i = i + 1;
    }
    Some(file_ids[best].clone())
}

/// The highest of the ids of a queue's files.
pub fn last_file_id(file_ids: &Vec<UintN>) -> (res: Option<UintN>)
    ensures
        match res {
            Some(id) => {
                &&& exists|i: int| 0 <= i < file_ids@.len() && (#[trigger] file_ids@[i])@ == id@
                &&& forall|i: int| 0 <= i < file_ids@.len() ==> (#[trigger] file_ids@[i])@ <= id@
            },
            None => file_ids@.len() == 0,
        },
{
    if file_ids.len() == 0 {
        return None;
    }
    let mut best: usize = 0;
    let mut i: usize = 1;
    while i < file_ids.len()
        invariant
            1 <= i <= file_ids@.len(),
            best < i,
            forall|j: int| 0 <= j < i ==> (#[trigger] file_ids@[j])@ <= file_ids@[best as int]@,
        decreases file_ids@.len() - i,
    {
        if file_ids[best].is_less(&file_ids[i]) {
            best = i;
        }
        i = i + 1;
    }
    Some(file_ids[best].clone())
}

/// What closing several writers comes to: the first error, if there is one.
pub fn first_error(outcomes: Vec<Result<(), WalError>>) -> (res: Result<(), WalError>)
    ensures
        match res {
            Ok(()) => forall|i: int| 0 <= i < outcomes@.len() ==> (#[trigger] outcomes@[i]) is Ok,
            Err(e) => exists|i: int|
                {
                    &&& 0 <= i < outcomes@.len()
                    &&& #[trigger] outcomes@[i] == Err::<(), WalError>(e)
                    &&& forall|j: int| 0 <= j < i ==> (#[trigger] outcomes@[j]) is Ok
                },
        },
{
    let ghost all = outcomes@;
    let mut rest = outcomes;
    let mut first: Result<(), WalError> = Ok(());
    while rest.len() > 0
        invariant
            rest@.len() <= all.len(),
            rest@ == all.take(rest@.len() as int),
            match first {
                Ok(()) => forall|i: int|
                    rest@.len() <= i < all.len() ==> (#[trigger] all[i]) is Ok,
                Err(e) => exists|i: int|
                    {
                        &&& rest@.len() <= i < all.len()
                        &&& #[trigger] all[i] == Err::<(), WalError>(e)
                        &&& forall|j: int| rest@.len() <= j < i ==> (#[trigger] all[j]) is Ok
                    },
            },
        decreases rest@.len(),
    {
        let ghost n = rest@.len();
        let last = rest.pop();
        match last {
            Some(Err(e)) => {
                assert(all[n - 1] == Err::<(), WalError>(e));
                first = Err(e);
            },
            _ => {
                assert(all[n - 1] is Ok);
            },
        }
        assert(rest@ =~= all.take(rest@.len() as int));
        proof {
            if first is Err {
                let e = first->Err_0;
                if all[n - 1] is Ok {
                    let i = choose|i: int|
                        {
                            &&& n <= i < all.len()
                            &&& #[trigger] all[i] == Err::<(), WalError>(e)
                            &&& forall|j: int| n <= j < i ==> (#[trigger] all[j]) is Ok
                        };
                    assert(all[i] == Err::<(), WalError>(e));
                }
            }
        }
    }
    first
}

} // verus!
