//! A page: entries in memory, framed as they are in a file.
//!
//! A page holds entries back to back, in the bytes that go to the file
//! unchanged, and an offset for each of them, which costs four bytes of the
//! page. Its entries have consecutive ids.

use vstd::prelude::*;
use vstd::slice::slice_subrange;
use crate::wal_entry_v1;
use crate::wal_entry_v1::WalEntryV1;
use crate::wal_file;

verus! {

/// The bytes that an entry's offset costs its page.
pub const PAGE_ENTRY_SLOT: usize = 4;

/// What a page holds.
pub struct PageView {
    pub page_id: u64,
    pub first: u64,
    pub records: Seq<Seq<u8>>,
    pub pins: u32,
}

impl PageView {
    /// The id behind the page's last.
    pub open spec fn end(self) -> int {
        self.first + self.records.len()
    }

    pub open spec fn is_empty(self) -> bool {
        self.records.len() == 0
    }

    /// The bytes of the page's entries.
    pub open spec fn bytes(self) -> Seq<u8> {
        wal_file::packed(self.records)
    }

    /// Where the page's `i`th entry begins, or where its entries end.
    pub open spec fn offset(self, i: int) -> nat {
        wal_file::packed(self.records.take(i)).len()
    }

    /// Whether the page holds this id.
    pub open spec fn has(self, id: int) -> bool {
        self.first <= id < self.end()
    }

    /// The record with this id.
    pub open spec fn record(self, id: int) -> Seq<u8> {
        self.records[id - self.first]
    }

    /// Whether one more entry of `entry_len` bytes fits a page of `cap` bytes.
    pub open spec fn has_room(self, entry_len: nat, cap: nat) -> bool {
        self.bytes().len() + 4 * self.records.len() + entry_len + 4 <= cap
    }

    /// Whether the page may be written over: nothing pins it, and every entry
    /// on it is below `essential`.
    pub open spec fn reusable(self, essential: u64) -> bool {
        self.pins == 0 && (self.is_empty() || self.end() - 1 < essential)
    }

    pub open spec fn pushed(self, record: Seq<u8>) -> PageView {
        PageView { records: self.records.push(record), ..self }
    }

    /// Whether the entries and their offsets fit a page of `cap` bytes.
    pub open spec fn wf(self, cap: nat) -> bool {
        &&& wal_file::writable(self.records)
        &&& self.bytes().len() + 4 * self.records.len() <= cap
        &&& self.end() <= u64::MAX
    }
}

/// A page that holds nothing.
pub open spec fn empty_page(page_id: u64, first: u64, pins: u32) -> PageView {
    PageView { page_id, first, records: Seq::empty(), pins }
}

pub proof fn lemma_packed_push(records: Seq<Seq<u8>>, r: Seq<u8>)
    ensures
        wal_file::packed(records.push(r)) == wal_file::packed(records) + wal_entry_v1::entry(r),
{
    let one = seq![r];
    assert(records.push(r) =~= records + one);
    wal_file::lemma_packed_concat(records, one);
    assert(one.drop_first() =~= Seq::<Seq<u8>>::empty());
    assert(wal_file::packed(one) =~= wal_entry_v1::entry(r)) by {
        assert(wal_file::packed(Seq::<Seq<u8>>::empty()) =~= Seq::<u8>::empty());
    }
}

/// A page's bytes up to its `i`th entry are those of the entries before it.
pub proof fn lemma_packed_split(records: Seq<Seq<u8>>, i: int)
    requires
        0 <= i <= records.len(),
    ensures
        wal_file::packed(records) == wal_file::packed(records.take(i)) + wal_file::packed(
            records.skip(i),
        ),
{
    assert(records =~= records.take(i) + records.skip(i));
    wal_file::lemma_packed_concat(records.take(i), records.skip(i));
}

/// Later entries begin behind earlier ones.
pub proof fn lemma_offset_monotone(p: PageView, i: int, j: int)
    requires
        0 <= i <= j <= p.records.len(),
    ensures
        p.offset(i) <= p.offset(j) <= p.bytes().len(),
        i < j && wal_file::writable(p.records) ==> p.offset(i) < p.offset(j),
{
    lemma_packed_split(p.records, j);
    let t = p.records.take(j);
    lemma_packed_split(t, i);
    assert(t.take(i) =~= p.records.take(i));
    if i < j && wal_file::writable(p.records) {
        let rest = t.skip(i);
        assert(rest.first() == p.records[i]);
        wal_entry_v1::lemma_entry_len(p.records[i]);
    }
}

/// A page of entries in memory.
pub struct WalPage {
    buf: Vec<u8>,
    offsets: Vec<usize>,
    page_id: u64,
    first_entry_id: u64,
    pin_count: u32,
    records: Ghost<Seq<Seq<u8>>>,
}

impl View for WalPage {
    type V = PageView;

    closed spec fn view(&self) -> PageView {
        PageView {
            page_id: self.page_id,
            first: self.first_entry_id,
            records: self.records@,
            pins: self.pin_count,
        }
    }
}

impl WalPage {
    /// The bytes and offsets are those of the records.
    pub closed spec fn framed(&self) -> bool {
        &&& self.buf@ == self@.bytes()
        &&& self.offsets@.len() == self@.records.len()
        &&& forall|i: int|
            0 <= i < self.offsets@.len() ==> #[trigger] self.offsets@[i] == self@.offset(i)
    }

    pub open spec fn wf(&self, cap: nat) -> bool {
        &&& self.framed()
        &&& self@.wf(cap)
    }

    /// A page that holds nothing.
    pub fn init(page_id: u64, first_entry_id: u64, pin_count: u32) -> (res: WalPage)
        ensures
            res@ == empty_page(page_id, first_entry_id, pin_count),
            forall|cap: nat| #[trigger] res.wf(cap),
    {
        let res = WalPage {
            buf: Vec::new(),
            offsets: Vec::new(),
            page_id,
            first_entry_id,
            pin_count,
            records: Ghost(Seq::empty()),
        };
        assert(res.buf@ =~= res@.bytes());
        res
    }

    /// Appends the entry that holds `record`.
    pub(crate) fn append(&mut self, record: &[u8], Ghost(cap): Ghost<nat>)
        requires
            old(self).wf(cap),
            record@.len() <= u32::MAX,
            old(self)@.has_room(wal_entry_v1::entry(record@).len(), cap),
            old(self)@.end() < u64::MAX,
        ensures
            final(self).wf(cap),
            final(self)@ == old(self)@.pushed(record@),
    {
        let ghost before = self@;
        proof {
            lemma_packed_push(self.records@, record@);
        }
        let offset: usize = self.buf.len();
        self.offsets.push(offset);
        wal_entry_v1::push_entry(&mut self.buf, record);
        self.records = Ghost(self.records@.push(record@));
        proof {
            let n = before.records.len() as int;
            assert(self@.records.take(n) =~= before.records);
            assert forall|i: int| 0 <= i < self.offsets@.len() implies #[trigger] self.offsets@[i]
                == self@.offset(i) by {
                if i < n {
                    assert(self@.records.take(i) =~= before.records.take(i));
                }
            }
            assert(self@.records =~= before.pushed(record@).records);
        }
    }

    pub fn len(&self) -> (res: usize)
        requires
            self.framed(),
        ensures
            res == self@.records.len(),
    {
        self.offsets.len()
    }

    pub fn is_empty(&self) -> (res: bool)
        requires
            self.framed(),
        ensures
            res == self@.is_empty(),
    {
        self.offsets.len() == 0
    }

    /// The bytes of the page's entries, in order.
    pub fn bytes(&self) -> (res: &[u8])
        requires
            self.framed(),
        ensures
            res@ == self@.bytes(),
    {
        self.buf.as_slice()
    }

    /// Where the page's `index`th entry begins, or where its entries end.
    pub fn entry_offset(&self, index: usize) -> (res: usize)
        requires
            self.framed(),
            index <= self@.records.len(),
        ensures
            res == self@.offset(index as int),
    {
        if index < self.offsets.len() {
            self.offsets[index]
        } else {
            assert(self@.records.take(index as int) =~= self@.records);
            self.buf.len()
        }
    }

    /// The record of the page's `index`th entry.
    pub fn record(&self, index: usize) -> (res: Option<&[u8]>)
        requires
            self.framed(),
            wal_file::writable(self@.records),
        ensures
            match res {
                Some(r) => index < self@.records.len() && r@ == self@.records[index as int],
                None => index >= self@.records.len(),
            },
    {
        if index >= self.offsets.len() {
            return None;
        }
        let offset: usize = self.offsets[index];
        let ghost r = self@.records[index as int];
        proof {
            lemma_packed_split(self@.records, index as int);
            let rest = self@.records.skip(index as int);
            assert(rest.first() == r);
            wal_entry_v1::entry_roundtrip(r, wal_file::packed(rest.drop_first()));
        }
        let framed = slice_subrange(self.buf.as_slice(), offset, self.buf.len());
        assert(framed@ =~= wal_file::packed(self@.records.skip(index as int)));
        match WalEntryV1::from_bytes(framed) {
            Ok((e, _)) => Some(e.record),
            Err(_) => None,
        }
    }

    pub fn first_entry_id(&self) -> (res: u64)
        ensures
            res == self@.first,
    {
        self.first_entry_id
    }

    pub fn page_id(&self) -> (res: u64)
        ensures
            res == self@.page_id,
    {
        self.page_id
    }

    pub fn pin_count(&self) -> (res: u32)
        ensures
            res == self@.pins,
    {
        self.pin_count
    }

    /// Adds pins.
    pub fn pin(&mut self, n: u32)
        requires
            old(self)@.pins + n <= u32::MAX,
        ensures
            final(self)@ == (PageView { pins: (old(self)@.pins + n) as u32, ..old(self)@ }),
            final(self).framed() == old(self).framed(),
    {
        self.pin_count = self.pin_count + n;
    }

    /// Takes a pin away.
    pub fn unpin(&mut self)
        requires
            old(self)@.pins > 0,
        ensures
            final(self)@ == (PageView { pins: (old(self)@.pins - 1) as u32, ..old(self)@ }),
            final(self).framed() == old(self).framed(),
    {
        self.pin_count = self.pin_count - 1;
    }

    /// Whether one more entry of `entry_len` bytes fits a page of `cap` bytes.
    pub fn has_room(&self, entry_len: usize, cap: usize) -> (res: bool)
        requires
            self.wf(cap as nat),
        ensures
            res == self@.has_room(entry_len as nat, cap as nat),
    {
        let left: usize = cap - self.buf.len() - PAGE_ENTRY_SLOT * self.offsets.len();
        left >= PAGE_ENTRY_SLOT && left - PAGE_ENTRY_SLOT >= entry_len
    }

    /// Whether the page may be written over: nothing pins it, and every entry
    /// on it is below `essential`.
    pub(crate) fn reusable(&self, essential: u64, Ghost(cap): Ghost<nat>) -> (res: bool)
        requires
            self.wf(cap),
        ensures
            res == self@.reusable(essential),
    {
        self.pin_count == 0 && (self.offsets.len() == 0 || self.first_entry_id + (
        self.offsets.len() as u64 - 1) < essential)
    }
}

} // verus!
