//! Which entries an archived file holds, read from its header and remembered.

use vstd::prelude::*;
use crate::store_header;
use crate::store_header::{FileAuthentication, StoreHeaderError, StoreView, FILE_AUTHENTICATION_SIZE};
use crate::store_header_v1;
use crate::store_header_v1::{AnyStoreHeader, AnyStoreHeaderError};
use crate::types::QueueId;
use crate::uintn::{UintN, UintNError};

verus! {

/// How many bytes of a file are read to find its header.
pub const RANGE_READ_SIZE: usize = 256;

#[derive(Debug, PartialEq, Eq)]
pub enum RangeStoreError {
    /// An I/O operation failed, with this message.
    Io(String),
    Header(StoreHeaderError),
    AnyHeader(AnyStoreHeaderError),
    /// Listing a queue's files failed, with this message.
    Path(String),
    UintN(UintNError),
    FileNotFound,
    SignatureVerificationFailed,
}

impl From<AnyStoreHeaderError> for RangeStoreError {
    fn from(e: AnyStoreHeaderError) -> (res: Self) {
        RangeStoreError::AnyHeader(e)
    }
}

impl vstd::std_specs::convert::FromSpecImpl<AnyStoreHeaderError> for RangeStoreError {
    open spec fn obeys_from_spec() -> bool {
        true
    }

    open spec fn from_spec(e: AnyStoreHeaderError) -> RangeStoreError {
        RangeStoreError::AnyHeader(e)
    }
}

impl From<StoreHeaderError> for RangeStoreError {
    fn from(e: StoreHeaderError) -> (res: Self) {
        RangeStoreError::Header(e)
    }
}

impl vstd::std_specs::convert::FromSpecImpl<StoreHeaderError> for RangeStoreError {
    open spec fn obeys_from_spec() -> bool {
        true
    }

    open spec fn from_spec(e: StoreHeaderError) -> RangeStoreError {
        RangeStoreError::Header(e)
    }
}

impl From<UintNError> for RangeStoreError {
    fn from(e: UintNError) -> (res: Self) {
        RangeStoreError::UintN(e)
    }
}

impl vstd::std_specs::convert::FromSpecImpl<UintNError> for RangeStoreError {
    open spec fn obeys_from_spec() -> bool {
        true
    }

    open spec fn from_spec(e: UintNError) -> RangeStoreError {
        RangeStoreError::UintN(e)
    }
}

// ---------------------------------------------------------------------------
// The range that a header states.

/// The first and the last id of a file, unless it holds no entries.
pub open spec fn range_of(h: StoreView) -> Option<(nat, nat)> {
    if h.num_entries == 0 {
        None
    } else {
        Some((h.num_entries_before, (h.num_entries_before + h.num_entries - 1) as nat))
    }
}

/// A range by its values.
pub open spec fn range_view(r: Option<(UintN, UintN)>) -> Option<(nat, nat)> {
    match r {
        Some((a, b)) => Some((a@, b@)),
        None => None,
    }
}

/// The range of a file with this header.
pub fn header_range(header: &AnyStoreHeader) -> (res: Option<(UintN, UintN)>)
    ensures
        range_view(res) == range_of(header@.header),
{
    let count = header.num_entries();
    if count.is_zero() {
        return None;
    }
    let first = header.num_entries_before();
    match count.sub(&UintN::one()) {
        Ok(rest) => {
            let last = first.add(&rest);
            Some((first, last))
        },
        Err(_) => None,
    }
}

/// A range names exactly the ids of the file's entries.
pub proof fn range_has_every_entry(h: StoreView, i: nat)
    requires
        i < h.num_entries,
    ensures
        range_of(h) matches Some((a, b)) && a <= h.num_entries_before + i <= b,
        range_of(h) matches Some((a, b)) && b - a + 1 == h.num_entries,
{
}

/// What the front of an archived file holds: its signatures and its header.
pub struct StoreFront {
    pub authentication: FileAuthentication,
    pub header: AnyStoreHeader,
    /// Where the header ends and the content begins.
    pub content_at: usize,
}

/// The front of an archived file by its contents.
pub struct FrontView {
    pub header_signature: Seq<u8>,
    pub content_signature: Seq<u8>,
    pub version: u64,
    pub header: StoreView,
    pub content_at: nat,
}

impl View for StoreFront {
    type V = FrontView;

    open spec fn view(&self) -> FrontView {
        FrontView {
            header_signature: self.authentication.header_signature@,
            content_signature: self.authentication.content_signature@,
            version: self.header@.version,
            header: self.header@.header,
            content_at: self.content_at as nat,
        }
    }
}

/// What reading the front of an archived file yields.
pub open spec fn parse_front(data: Seq<u8>) -> Result<FrontView, RangeStoreError> {
    match store_header::parse_authentication(data) {
        Err(e) => Err(RangeStoreError::Header(e)),
        Ok((header_signature, content_signature)) => match store_header_v1::parse_any(
            data.skip(FILE_AUTHENTICATION_SIZE as int),
        ) {
            Err(e) => Err(RangeStoreError::AnyHeader(e)),
            Ok((h, n)) => Ok(
                FrontView {
                    header_signature,
                    content_signature,
                    version: h.version,
                    header: h.header,
                    content_at: FILE_AUTHENTICATION_SIZE as nat + n,
                },
            ),
        },
    }
}

impl StoreFront {
    /// Reads the signatures and the header off the front of a file.
    pub fn from_bytes(data: &[u8]) -> (res: Result<Self, RangeStoreError>)
        ensures
            match (res, parse_front(data@)) {
                (Ok(f), Ok(v)) => {
                    &&& f@ == v
                    &&& FILE_AUTHENTICATION_SIZE <= f.content_at <= data@.len()
                },
                (Err(e), Err(v)) => e == v,
                _ => false,
            },
    {
        let (authentication, size) = match FileAuthentication::from_bytes(data) {
            Ok(v) => v,
            Err(e) => {
                return Err(RangeStoreError::from(e));
            },
        };
        let rest = vstd::slice::slice_subrange(data, size, data.len());
        assert(rest@ =~= data@.skip(FILE_AUTHENTICATION_SIZE as int));
        match AnyStoreHeader::from_bytes(rest) {
            Ok((header, n)) => Ok(StoreFront { authentication, header, content_at: size + n }),
            Err(e) => Err(RangeStoreError::from(e)),
        }
    }

    /// The bytes that the header's signature is about.
    pub fn signed_header<'a>(&self, data: &'a [u8]) -> (res: &'a [u8])
        requires
            FILE_AUTHENTICATION_SIZE <= self.content_at <= data@.len(),
        ensures
            res@ == data@.subrange(FILE_AUTHENTICATION_SIZE as int, self@.content_at as int),
    {
        vstd::slice::slice_subrange(data, FILE_AUTHENTICATION_SIZE, self.content_at)
    }

    /// The range that the header states. With `verify`, only if its signature
    /// is good.
    pub fn range(&self, verify: bool, header_ok: bool) -> (res: Result<
        Option<(UintN, UintN)>,
        RangeStoreError,
    >)
        ensures
            match res {
                Err(e) => verify && !header_ok && e == RangeStoreError::SignatureVerificationFailed,
                Ok(r) => !(verify && !header_ok) && range_view(r) == range_of(self@.header),
            },
    {
        if verify && !header_ok {
            return Err(RangeStoreError::SignatureVerificationFailed);
        }
        Ok(header_range(&self.header))
    }
}

/// The range of an object whose first bytes are a header.
pub fn object_range(data: &[u8]) -> (res: Result<Option<(UintN, UintN)>, AnyStoreHeaderError>)
    ensures
        match (res, store_header_v1::parse_any(data@)) {
            (Ok(r), Ok((h, _))) => range_view(r) == range_of(h.header),
            (Err(e), Err(v)) => e == v,
            _ => false,
        },
{
    match AnyStoreHeader::from_bytes(data) {
        Ok((header, _)) => Ok(header_range(&header)),
        Err(e) => Err(e),
    }
}

// ---------------------------------------------------------------------------
// Remembered ranges.

/// What is remembered: the range of a file, by queue and file id.
pub type RangesView = Map<(Seq<char>, nat), (nat, nat)>;

struct Remembered {
    queue_id: QueueId,
    file_id: UintN,
    first_id: UintN,
    last_id: UintN,
}

/// Ranges by queue and file id. No file is in the list twice.
struct RangeList {
    list: Vec<Remembered>,
}

spec fn at_key(list: Seq<Remembered>, key: (Seq<char>, nat), i: int) -> bool {
    0 <= i < list.len() && list[i].queue_id@ == key.0 && list[i].file_id@ == key.1
}

impl View for RangeList {
    type V = RangesView;

    closed spec fn view(&self) -> RangesView {
        Map::new(
            |key: (Seq<char>, nat)| exists|i: int| at_key(self.list@, key, i),
            |key: (Seq<char>, nat)|
                {
                    let i = choose|i: int| at_key(self.list@, key, i);
                    (self.list@[i].first_id@, self.list@[i].last_id@)
                },
        )
    }
}

impl RangeList {
    spec fn wf(&self) -> bool {
        forall|key: (Seq<char>, nat), i: int, j: int|
            #[trigger] at_key(self.list@, key, i) && #[trigger] at_key(self.list@, key, j) ==> i
                == j
    }

    fn new() -> (res: Self)
        ensures
            res.wf(),
            res@ == Map::<(Seq<char>, nat), (nat, nat)>::empty(),
    {
        let res = RangeList { list: Vec::new() };
        assert(res@ =~= Map::empty());
        res
    }

    fn find(&self, queue_id: &QueueId, file_id: &UintN) -> (res: Option<usize>)
        ensures
            match res {
                Some(i) => at_key(self.list@, (queue_id@, file_id@), i as int),
                None => forall|i: int| !#[trigger] at_key(self.list@, (queue_id@, file_id@), i),
            },
    {
        let ghost key = (queue_id@, file_id@);
        let mut i: usize = 0;
        while i < self.list.len()
            invariant
                i <= self.list@.len(),
                key == (queue_id@, file_id@),
                forall|j: int| 0 <= j < i ==> !#[trigger] at_key(self.list@, key, j),
            decreases self.list@.len() - i,
        {
            if self.list[i].file_id.equals(file_id) && self.list[i].queue_id.equals(queue_id) {
                assert(at_key(self.list@, key, i as int));
                return Some(i);
            }
            i = i + 1;
        }
        None
    }

    fn get(&self, queue_id: &QueueId, file_id: &UintN) -> (res: Option<(UintN, UintN)>)
        requires
            self.wf(),
        ensures
            match res {
                Some((a, b)) => self@.contains_key((queue_id@, file_id@)) && self@[(
                    queue_id@,
                    file_id@,
                )] == (a@, b@),
                None => !self@.contains_key((queue_id@, file_id@)),
            },
    {
        match self.find(queue_id, file_id) {
            Some(i) => {
                proof {
                    let key = (queue_id@, file_id@);
                    let j = choose|j: int| at_key(self.list@, key, j);
                    assert(at_key(self.list@, key, i as int));
                    assert(at_key(self.list@, key, j));
                }
                Some((self.list[i].first_id.clone(), self.list[i].last_id.clone()))
            },
            None => None,
        }
    }

    fn insert(&mut self, queue_id: &QueueId, file_id: &UintN, first_id: &UintN, last_id: &UintN)
        requires
            old(self).wf(),
        ensures
            final(self).wf(),
            final(self)@ == old(self)@.insert((queue_id@, file_id@), (first_id@, last_id@)),
    {
        let ghost before = *self;
        let ghost key = (queue_id@, file_id@);
        let found = self.find(queue_id, file_id);
        let item = Remembered {
            queue_id: queue_id.clone(),
            file_id: file_id.clone(),
            first_id: first_id.clone(),
            last_id: last_id.clone(),
        };
        let at: usize = match found {
            Some(i) => {
                self.list.set(i, item);
                i
            },
            None => {
                self.list.push(item);
                self.list.len() - 1
            },
        };
        proof {
            let old_list = before.list@;
            let list = self.list@;
            assert(at_key(list, key, at as int));
            // Elsewhere nothing changed.
            assert forall|k: (Seq<char>, nat), i: int| #[trigger] at_key(list, k, i) implies (if i
                == at {
                k == key
            } else {
                at_key(old_list, k, i) && k != key && list[i] == old_list[i]
            }) by {
                if i != at {
                    assert(list[i] == old_list[i]);
                    assert(at_key(old_list, k, i));
                    if k == key {
                        if let Some(f) = found {
                            assert(at_key(old_list, key, f as int));
                        }
                    }
                }
            }
            assert forall|k: (Seq<char>, nat), i: int|
                k != key && #[trigger] at_key(old_list, k, i) implies at_key(list, k, i) && list[i]
                == old_list[i] by {
                if let Some(f) = found {
                    assert(at_key(old_list, key, f as int));
                }
            }
            assert(self.wf());
            let want = before@.insert(key, (first_id@, last_id@));
            assert forall|k: (Seq<char>, nat)| #[trigger] self@.contains_key(k)
                == want.contains_key(k) by {
                if k != key {
                    if self@.contains_key(k) {
                        let i = choose|i: int| at_key(list, k, i);
                        assert(at_key(list, k, i));
                        assert(at_key(old_list, k, i));
                    }
                    if before@.contains_key(k) {
                        let i = choose|i: int| at_key(old_list, k, i);
                        assert(at_key(old_list, k, i));
                        assert(at_key(list, k, i));
                    }
                }
            }
            assert forall|k: (Seq<char>, nat)| #[trigger] self@.contains_key(k) implies self@[k]
                == want[k] by {
                let i = choose|i: int| at_key(list, k, i);
                assert(at_key(list, k, i));
                if k == key {
                    assert(i == at);
                } else {
                    let j = choose|j: int| at_key(old_list, k, j);
                    assert(at_key(old_list, k, i));
                    assert(at_key(old_list, k, j));
                    assert(i == j);
                }
            }
            assert(self@ =~= want);
        }
    }
}

/// What a range is settled to once it was looked for: a file that is not there
/// has none.
pub open spec fn settled(r: Result<Option<(nat, nat)>, RangeStoreError>) -> Result<
    Option<(nat, nat)>,
    RangeStoreError,
> {
    match r {
        Err(RangeStoreError::FileNotFound) => Ok(None),
        _ => r,
    }
}

/// A result by its values.
pub open spec fn result_view(r: Result<Option<(UintN, UintN)>, RangeStoreError>) -> Result<
    Option<(nat, nat)>,
    RangeStoreError,
> {
    match r {
        Ok(x) => Ok(range_view(x)),
        Err(e) => Err(e),
    }
}

/// Remembers the ranges of archived files.
pub struct RangeStore {
    ranges: RangeList,
    verify_signatures: bool,
}

impl View for RangeStore {
    type V = RangesView;

    closed spec fn view(&self) -> RangesView {
        self.ranges@
    }
}

impl RangeStore {
    pub closed spec fn wf(&self) -> bool {
        self.ranges.wf()
    }

    /// Whether headers are read only if their signatures are good.
    pub closed spec fn spec_verifies(&self) -> bool {
        self.verify_signatures
    }

    pub fn new(verify_signatures: bool) -> (res: Self)
        ensures
            res.wf(),
            res@ == Map::<(Seq<char>, nat), (nat, nat)>::empty(),
            res.spec_verifies() == verify_signatures,
    {
        RangeStore { ranges: RangeList::new(), verify_signatures }
    }

    pub fn verifies(&self) -> (res: bool)
        ensures
            res == self.spec_verifies(),
    {
        self.verify_signatures
    }

    /// The remembered range of a file.
    pub fn get_range(&self, queue_id: &QueueId, file_id: &UintN) -> (res: Option<(UintN, UintN)>)
        requires
            self.wf(),
        ensures
            match res {
                Some((a, b)) => self@.contains_key((queue_id@, file_id@)) && self@[(
                    queue_id@,
                    file_id@,
                )] == (a@, b@),
                None => !self@.contains_key((queue_id@, file_id@)),
            },
    {
        self.ranges.get(queue_id, file_id)
    }

    /// Remembers the range of a file.
    pub fn record_range(
        &mut self,
        queue_id: &QueueId,
        file_id: &UintN,
        first_id: &UintN,
        last_id: &UintN,
    )
        requires
            old(self).wf(),
        ensures
            final(self).wf(),
            final(self).spec_verifies() == old(self).spec_verifies(),
            final(self)@ == old(self)@.insert((queue_id@, file_id@), (first_id@, last_id@)),
    {
        self.ranges.insert(queue_id, file_id, first_id, last_id);
    }

    /// A range that was not remembered was looked for: it is remembered if it
    /// was found, and a file that is not there has none.
    pub fn settle_range(
        &mut self,
        queue_id: &QueueId,
        file_id: &UintN,
        found: Result<Option<(UintN, UintN)>, RangeStoreError>,
    ) -> (res: Result<Option<(UintN, UintN)>, RangeStoreError>)
        requires
            old(self).wf(),
        ensures
            final(self).wf(),
            final(self).spec_verifies() == old(self).spec_verifies(),
            result_view(res) == settled(result_view(found)),
            final(self)@ == (match result_view(found) {
                Ok(Some(r)) => old(self)@.insert((queue_id@, file_id@), r),
                _ => old(self)@,
            }),
    {
        match found {
            Ok(Some((first_id, last_id))) => {
                self.ranges.insert(queue_id, file_id, &first_id, &last_id);
                Ok(Some((first_id, last_id)))
            },
            Ok(None) => Ok(None),
            Err(RangeStoreError::FileNotFound) => Ok(None),
            Err(e) => Err(e),
        }
    }
}

/// Remembers the ranges of objects in remote storage.
pub struct RangeCache {
    ranges: RangeList,
}

impl View for RangeCache {
    type V = RangesView;

    closed spec fn view(&self) -> RangesView {
        self.ranges@
    }
}

impl RangeCache {
    pub closed spec fn wf(&self) -> bool {
        self.ranges.wf()
    }

    pub fn new() -> (res: Self)
        ensures
            res.wf(),
            res@ == Map::<(Seq<char>, nat), (nat, nat)>::empty(),
    {
        RangeCache { ranges: RangeList::new() }
    }

    /// The remembered range of an object.
    pub fn get_file_range(&self, queue_id: &QueueId, file_id: &UintN) -> (res: Option<
        (UintN, UintN),
    >)
        requires
            self.wf(),
        ensures
            match res {
                Some((a, b)) => self@.contains_key((queue_id@, file_id@)) && self@[(
                    queue_id@,
                    file_id@,
                )] == (a@, b@),
                None => !self@.contains_key((queue_id@, file_id@)),
            },
    {
        self.ranges.get(queue_id, file_id)
    }

    /// Remembers the range of an object.
    pub fn record_range(
        &mut self,
        queue_id: &QueueId,
        file_id: &UintN,
        first_id: &UintN,
        last_id: &UintN,
    )
        requires
            old(self).wf(),
        ensures
            final(self).wf(),
            final(self)@ == old(self)@.insert((queue_id@, file_id@), (first_id@, last_id@)),
    {
        self.ranges.insert(queue_id, file_id, first_id, last_id);
    }

    /// The first bytes of an object that was not remembered were read, or
    /// there is no such object. Its range is remembered if it has one.
    pub fn settle_range(&mut self, queue_id: &QueueId, file_id: &UintN, head: Option<&[u8]>) -> (res:
        Result<Option<(UintN, UintN)>, AnyStoreHeaderError>)
        requires
            old(self).wf(),
        ensures
            final(self).wf(),
            match head {
                None => {
                    &&& res matches Ok(r) && r is None
                    &&& final(self)@ == old(self)@
                },
                Some(data) => match store_header_v1::parse_any(data@) {
                    Err(e) => {
                        &&& res matches Err(f) && f == e
                        &&& final(self)@ == old(self)@
                    },
                    Ok((h, _)) => {
                        &&& res matches Ok(r) && range_view(r) == range_of(h.header)
                        &&& final(self)@ == (match range_of(h.header) {
                            Some(r) => old(self)@.insert((queue_id@, file_id@), r),
                            None => old(self)@,
                        })
                    },
                },
            },
    {
        let data = match head {
            Some(d) => d,
            None => {
                return Ok(None);
            },
        };
        match object_range(data) {
            Ok(Some((first_id, last_id))) => {
                self.ranges.insert(queue_id, file_id, &first_id, &last_id);
                Ok(Some((first_id, last_id)))
            },
            Ok(None) => Ok(None),
            Err(e) => Err(e),
        }
    }
}

/// What was recorded of a file is what is remembered of it, and nothing
/// changes for other files.
pub proof fn recorded_range_is_remembered(
    ranges: RangesView,
    key: (Seq<char>, nat),
    range: (nat, nat),
    other: (Seq<char>, nat),
)
    ensures
        ranges.insert(key, range)[key] == range,
        ranges.insert(key, range).contains_key(key),
        other != key ==> ranges.insert(key, range).contains_key(other) == ranges.contains_key(
            other,
        ),
        other != key && ranges.contains_key(other) ==> ranges.insert(key, range)[other]
            == ranges[other],
{
}

} // verus!
