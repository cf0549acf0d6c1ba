//! Restores the id order of entries that arrive out of order.

use bytes::Bytes;
use vstd::prelude::*;
use crate::buf;
use crate::page_pool::Placement;
use crate::uintn::UintN;

verus! {

/// An entry on its way to a file.
pub struct EntryView {
    pub id: nat,
    pub data: Seq<u8>,
    pub placement: Placement,
}

/// An entry by its contents.
pub open spec fn entry_view(e: (UintN, Bytes, Placement)) -> EntryView {
    EntryView { id: e.0@, data: buf::bytes_of(e.1), placement: e.2 }
}

/// Entries by their contents.
pub open spec fn entry_views(es: Seq<(UintN, Bytes, Placement)>) -> Seq<EntryView> {
    Seq::new(es.len(), |i: int| entry_view(es[i]))
}

pub struct BufferView {
    /// The id that is next in order.
    pub next: nat,
    /// The entries that wait for an earlier one.
    pub pending: Seq<EntryView>,
}

/// Whether entry `i` is the first with this id.
pub open spec fn is_first(es: Seq<EntryView>, id: nat, i: int) -> bool {
    &&& 0 <= i < es.len()
    &&& es[i].id == id
    &&& forall|j: int| 0 <= j < i ==> (#[trigger] es[j]).id != id
}

/// Whether some entry has this id.
pub open spec fn has_id(es: Seq<EntryView>, id: nat) -> bool {
    exists|i: int| 0 <= i < es.len() && (#[trigger] es[i]).id == id
}

impl BufferView {
    /// Nothing that is next in order waits.
    pub open spec fn wf(self) -> bool {
        forall|i: int| 0 <= i < self.pending.len() ==> (#[trigger] self.pending[i]).id != self.next
    }

    /// Takes out what is next in order, as long as it is there.
    pub open spec fn release(self) -> (BufferView, Seq<EntryView>)
        decreases self.pending.len(),
    {
        if exists|i: int| is_first(self.pending, self.next, i) {
            let i = choose|i: int| is_first(self.pending, self.next, i);
            let (after, ready) = (BufferView {
                next: self.next + 1,
                pending: self.pending.remove(i),
            }).release();
            (after, seq![self.pending[i]] + ready)
        } else {
            (self, Seq::empty())
        }
    }

    /// An entry arrives: it and those that waited for it are ready, or it
    /// waits.
    pub open spec fn arrive(self, e: EntryView) -> (BufferView, Seq<EntryView>) {
        (BufferView { pending: self.pending.push(e), ..self }).release()
    }

    /// Entries arrive one after the other.
    pub open spec fn arrive_all(self, es: Seq<EntryView>) -> (BufferView, Seq<EntryView>)
        decreases es.len(),
    {
        if es.len() == 0 {
            (self, Seq::empty())
        } else {
            let (before, ready) = self.arrive_all(es.drop_last());
            let (after, more) = before.arrive(es.last());
            (after, ready + more)
        }
    }
}

proof fn lemma_first_unique(es: Seq<EntryView>, id: nat, a: int, b: int)
    requires
        is_first(es, id, a),
        is_first(es, id, b),
    ensures
        a == b,
{
    if a < b {
        assert(es[a].id != id);
    } else if b < a {
        assert(es[b].id != id);
    }
}

proof fn lemma_first_exists(es: Seq<EntryView>, id: nat, i: int)
    requires
        0 <= i < es.len(),
        es[i].id == id,
    ensures
        exists|j: int| is_first(es, id, j),
    decreases i,
{
    if exists|j: int| 0 <= j < i && (#[trigger] es[j]).id == id {
        let j = choose|j: int| 0 <= j < i && (#[trigger] es[j]).id == id;
        lemma_first_exists(es, id, j);
    } else {
        assert(is_first(es, id, i));
    }
}

/// What is released has consecutive ids, and nothing that is next in order
/// stays.
pub proof fn lemma_release(v: BufferView)
    ensures
        ({
            let (after, ready) = v.release();
            &&& after.wf()
            &&& after.next == v.next + ready.len()
            &&& forall|i: int| 0 <= i < ready.len() ==> (#[trigger] ready[i]).id == v.next + i
            &&& ready.len() + after.pending.len() == v.pending.len()
            &&& forall|e: EntryView|
                #[trigger] v.pending.contains(e) ==> ready.contains(e) || after.pending.contains(e)
            &&& forall|e: EntryView|
                ready.contains(e) || after.pending.contains(e) ==> #[trigger] v.pending.contains(e)
        }),
    decreases v.pending.len(),
{
    let (after, ready) = v.release();
    if exists|i: int| is_first(v.pending, v.next, i) {
        let i = choose|i: int| is_first(v.pending, v.next, i);
        let w = BufferView { next: v.next + 1, pending: v.pending.remove(i) };
        let (wa, wr) = w.release();
        lemma_release(w);
        let e = v.pending[i];
        assert(ready == seq![e] + wr);
        assert forall|j: int| 0 <= j < ready.len() implies (#[trigger] ready[j]).id == v.next
            + j by {
            if j > 0 {
                assert(ready[j] == wr[j - 1]);
            }
        }
        assert forall|x: EntryView| #[trigger] v.pending.contains(x) implies ready.contains(x)
            || after.pending.contains(x) by {
            let j = choose|j: int| 0 <= j < v.pending.len() && v.pending[j] == x;
            if j == i {
                assert(ready[0] == x);
            } else {
                let jj = if j < i {
                    j
                } else {
                    j - 1
                };
                assert(w.pending[jj] == x);
                assert(w.pending.contains(x));
                if wr.contains(x) {
                    let m = choose|m: int| 0 <= m < wr.len() && wr[m] == x;
                    assert(ready[m + 1] == x);
                }
            }
        }
        assert forall|x: EntryView|
            ready.contains(x) || after.pending.contains(x) implies #[trigger] v.pending.contains(
            x,
        ) by {
            if ready.contains(x) {
                let m = choose|m: int| 0 <= m < ready.len() && ready[m] == x;
                if m > 0 {
                    assert(wr[m - 1] == x);
                    assert(w.pending.contains(x));
                }
            }
            if w.pending.contains(x) {
                let m = choose|m: int| 0 <= m < w.pending.len() && w.pending[m] == x;
                if m < i {
                    assert(v.pending[m] == x);
                } else {
                    assert(v.pending[m + 1] == x);
                }
            }
        }
    } else {
        assert forall|i: int| 0 <= i < v.pending.len() implies (#[trigger] v.pending[i]).id
            != v.next by {
            if v.pending[i].id == v.next {
                lemma_first_exists(v.pending, v.next, i);
            }
        }
    }
}

/// An entry that is next in order, with nothing waiting, goes straight on.
pub proof fn lemma_direct(v: BufferView, e: EntryView)
    requires
        v.pending.len() == 0,
        e.id == v.next,
    ensures
        v.arrive(e) == (BufferView { next: v.next + 1, pending: v.pending }, seq![e]),
{
    let w = BufferView { pending: v.pending.push(e), ..v };
    assert(is_first(w.pending, w.next, 0));
    let i = choose|i: int| is_first(w.pending, w.next, i);
    lemma_first_unique(w.pending, w.next, 0, i);
    let x = BufferView { next: w.next + 1, pending: w.pending.remove(0) };
    assert(x.pending =~= v.pending);
    assert(x.release() == (x, Seq::<EntryView>::empty()));
    assert(seq![e] + Seq::<EntryView>::empty() =~= seq![e]);
}

/// Whatever the order in which entries arrive, they become ready in id order,
/// without a gap and without a repetition.
pub proof fn order_is_restored(v: BufferView, es: Seq<EntryView>)
    requires
        v.wf(),
    ensures
        ({
            let (after, ready) = v.arrive_all(es);
            &&& after.wf()
            &&& after.next == v.next + ready.len()
            &&& forall|i: int| 0 <= i < ready.len() ==> (#[trigger] ready[i]).id == v.next + i
        }),
    decreases es.len(),
{
    if es.len() > 0 {
        order_is_restored(v, es.drop_last());
        let (before, ready) = v.arrive_all(es.drop_last());
        let w = BufferView { pending: before.pending.push(es.last()), ..before };
        lemma_release(w);
        let more = w.release().1;
        assert forall|i: int| 0 <= i < (ready + more).len() implies (#[trigger] (ready
            + more)[i]).id == v.next + i by {
            if i >= ready.len() {
                assert((ready + more)[i] == more[i - ready.len()]);
            }
        }
    }
}

/// An entry that arrived is ready or still waits: none is dropped, and what
/// was ready is what arrived.
pub proof fn no_entry_is_dropped(v: BufferView, es: Seq<EntryView>, i: int)
    requires
        v.wf(),
        0 <= i < es.len(),
    ensures
        ({
            let (after, ready) = v.arrive_all(es);
            ready.contains(es[i]) || after.pending.contains(es[i])
        }),
    decreases es.len(),
{
    let e = es[i];
    let front = es.drop_last();
    let (before, ready) = v.arrive_all(front);
    let w = BufferView { pending: before.pending.push(es.last()), ..before };
    let (after, more) = w.release();
    lemma_release(w);
    if i < front.len() {
        no_entry_is_dropped(v, front, i);
        assert(front[i] == e);
        if ready.contains(e) {
            let m = choose|m: int| 0 <= m < ready.len() && ready[m] == e;
            assert((ready + more)[m] == e);
        } else {
            let m = choose|m: int| 0 <= m < before.pending.len() && before.pending[m] == e;
            assert(w.pending[m] == e);
        }
    } else {
        assert(w.pending.last() == e);
        assert(w.pending[w.pending.len() - 1] == e);
    }
    assert(!ready.contains(e) ==> w.pending.contains(e));
    if more.contains(e) {
        let m = choose|m: int| 0 <= m < more.len() && more[m] == e;
        assert((ready + more)[ready.len() + m] == e);
    }
}

/// Once every id up to some id has arrived, all of these are ready: nothing
/// waits without a reason.
pub proof fn nothing_waits_in_vain(v: BufferView, es: Seq<EntryView>, n: nat)
    requires
        v.wf(),
        forall|id: nat| v.next <= id < v.next + n ==> #[trigger] has_id(es, id),
    ensures
        v.arrive_all(es).1.len() >= n,
{
    order_is_restored(v, es);
    let (after, ready) = v.arrive_all(es);
    if ready.len() < n {
        let id = after.next;
        assert(has_id(es, id));
        let i = choose|i: int| 0 <= i < es.len() && (#[trigger] es[i]).id == id;
        no_entry_is_dropped(v, es, i);
        if ready.contains(es[i]) {
            let m = choose|m: int| 0 <= m < ready.len() && ready[m] == es[i];
            assert(ready[m].id == v.next + m);
        } else {
            let m = choose|m: int| 0 <= m < after.pending.len() && after.pending[m] == es[i];
            assert(after.pending[m].id == after.next);
        }
    }
}

/// Entries that wait for their turn.
pub struct OrderedBuffer {
    next: UintN,
    pending: Vec<(UintN, Bytes, Placement)>,
}

impl View for OrderedBuffer {
    type V = BufferView;

    closed spec fn view(&self) -> BufferView {
        BufferView { next: self.next@, pending: entry_views(self.pending@) }
    }
}

impl OrderedBuffer {
    /// A buffer that continues after `last_entry_id`, or starts with id zero.
    pub fn new(last_entry_id: Option<UintN>) -> (res: Self)
        ensures
            res@.wf(),
            res@ == (BufferView {
                next: match last_entry_id {
                    Some(id) => id@ + 1,
                    None => 0,
                },
                pending: Seq::empty(),
            }),
    {
        let next = match last_entry_id {
            Some(id) => id.increment(),
            None => UintN::zero(),
        };
        let res = OrderedBuffer { next, pending: Vec::new() };
        assert(res@.pending =~= Seq::empty());
        res
    }

    /// Whether an entry with this id can go straight on. If so, it has its
    /// turn: the id after it is next.
    pub fn can_write(&mut self, entry_id: &UintN) -> (res: bool)
        requires
            old(self)@.wf(),
        ensures
            final(self)@.wf(),
            res == (old(self)@.pending.len() == 0 && entry_id@ == old(self)@.next),
            final(self)@ == (BufferView {
                next: if res {
                    old(self)@.next + 1
                } else {
                    old(self)@.next
                },
                ..old(self)@
            }),
    {
        if self.pending.len() == 0 && self.next.equals(entry_id) {
            self.next = self.next.increment();
            true
        } else {
            false
        }
    }

    /// Takes an entry in and hands out those that are ready with it.
    pub fn wait_for_order(&mut self, entry: (UintN, Bytes, Placement)) -> (ready: Vec<
        (UintN, Bytes, Placement),
    >)
        requires
            old(self)@.wf(),
        ensures
            final(self)@.wf(),
            final(self)@ == old(self)@.arrive(entry_view(entry)).0,
            entry_views(ready@) == old(self)@.arrive(entry_view(entry)).1,
    {
        let ghost before = self@;
        let mut ready: Vec<(UintN, Bytes, Placement)> = Vec::new();
        self.pending.push(entry);
        let ghost goal = before.arrive(entry_view(entry));
        proof {
            let start = BufferView { pending: before.pending.push(entry_view(entry)), ..before };
            assert(self@.pending =~= start.pending);
            assert(entry_views(ready@) + self@.release().1 =~= goal.1);
        }
        let mut going = true;
        while going
            invariant
                self@.release().0 == goal.0,
                entry_views(ready@) + self@.release().1 == goal.1,
                !going ==> self@.release() == (self@, Seq::<EntryView>::empty()),
            decreases self.pending@.len() + (if going {
                1int
            } else {
                0int
            }),
        {
            let ghost now = self@;
            let ghost done = entry_views(ready@);
            match self.find_next() {
                Some(i) => {
                    let e = self.pending.remove(i);
                    self.next = self.next.increment();
                    ready.push(e);
                    proof {
                        let j = choose|j: int| is_first(now.pending, now.next, j);
                        lemma_first_unique(now.pending, now.next, i as int, j);
                        assert(self@.pending =~= now.pending.remove(i as int));
                        assert(entry_views(ready@) =~= done.push(now.pending[i as int]));
                        assert(entry_views(ready@) + self@.release().1 =~= done
                            + now.release().1);
                    }
                },
                None => {
                    going = false;
                },
            }
        }
        proof {
            lemma_release(self@);
            assert(entry_views(ready@) + Seq::<EntryView>::empty() =~= entry_views(ready@));
        }
        ready
    }

    fn find_next(&self) -> (res: Option<usize>)
        ensures
            match res {
                Some(i) => is_first(self@.pending, self@.next, i as int),
                None => self@.release() == (self@, Seq::<EntryView>::empty()),
            },
    {
        let mut i: usize = 0;
        while i < self.pending.len()
            invariant
                i <= self.pending@.len(),
                forall|j: int| 0 <= j < i ==> (#[trigger] self@.pending[j]).id != self@.next,
            decreases self.pending@.len() - i,
        {
            assert(self@.pending[i as int] == entry_view(self.pending@[i as int]));
            if self.pending[i].0.equals(&self.next) {
                return Some(i);
            }
            i = i + 1;
        }
        None
    }

    /// The ids of the entries that wait.
    pub fn pending_ids(&self) -> (ids: Vec<UintN>)
        ensures
            ids@.len() == self@.pending.len(),
            forall|i: int| 0 <= i < ids@.len() ==> (#[trigger] ids@[i])@ == self@.pending[i].id,
    {
        let mut ids: Vec<UintN> = Vec::new();
        let mut i: usize = 0;
        while i < self.pending.len()
            invariant
                i <= self.pending@.len(),
                ids@.len() == i,
                forall|j: int| 0 <= j < i ==> (#[trigger] ids@[j])@ == self@.pending[j].id,
            decreases self.pending@.len() - i,
        {
            ids.push(self.pending[i].0.clone());
            i = i + 1;
        }
        ids
    }
}

} // verus!
