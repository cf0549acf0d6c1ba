//! The order of the operations that put bytes into a file, and what follows
//! from one that fails.
//!
//! A batch is in the file only as a whole. A try that fails at any point is
//! followed by cutting the file back to the length it had, so that the next
//! try starts where this one did.

use vstd::prelude::*;
use crate::ack_file_writer::MAX_RETRIES;

verus! {

/// What to do with the file next.
#[derive(Debug, Clone, Copy, PartialEq, Eq, Structural)]
pub enum FlushAction {
    /// Write the run with this number.
    Write(usize),
    /// Flush what was written, which surfaces an error of an earlier write.
    Flush,
    Sync,
    /// Cut the file back to its known length; with `retry`, wait and try
    /// again.
    Restore { retry: bool },
    /// Everything is in the file.
    Done,
    /// Every try failed.
    GaveUp,
}

/// How far a flush is.
pub struct AttemptView {
    pub runs: nat,
    pub fsync: bool,
    /// The tries that failed and were undone.
    pub attempt: nat,
    /// The operations of this try that succeeded.
    pub at: nat,
    /// Whether an operation of this try failed.
    pub failed: bool,
}

/// The operations of one try, in order.
pub open spec fn plan(runs: nat, fsync: bool) -> Seq<FlushAction> {
    Seq::new(runs, |i: int| FlushAction::Write(i as usize)) + seq![FlushAction::Flush] + (if fsync {
        seq![FlushAction::Sync]
    } else {
        Seq::empty()
    })
}

impl AttemptView {
    pub open spec fn wf(self) -> bool {
        &&& self.runs <= usize::MAX
        &&& self.at <= plan(self.runs, self.fsync).len()
        &&& self.attempt <= MAX_RETRIES
        &&& self.failed ==> self.attempt < MAX_RETRIES
    }

    /// A flush that begins.
    pub open spec fn start(runs: nat, fsync: bool) -> AttemptView {
        AttemptView { runs, fsync, attempt: 0, at: 0, failed: false }
    }

    /// What to do next.
    pub open spec fn action(self) -> FlushAction {
        if self.failed {
            FlushAction::Restore { retry: self.attempt + 1 < MAX_RETRIES }
        } else if self.at == plan(self.runs, self.fsync).len() {
            FlushAction::Done
        } else if self.attempt == MAX_RETRIES {
            FlushAction::GaveUp
        } else {
            plan(self.runs, self.fsync)[self.at as int]
        }
    }

    /// After the next thing was done, and succeeded or failed.
    pub open spec fn stepped(self, ok: bool) -> AttemptView {
        if self.failed {
            AttemptView { attempt: self.attempt + 1, at: 0, failed: false, ..self }
        } else if self.action() is Done || self.action() is GaveUp {
            self
        } else if ok {
            AttemptView { at: self.at + 1, ..self }
        } else {
            AttemptView { failed: true, ..self }
        }
    }

    /// After several things were done, with these results.
    pub open spec fn after(self, results: Seq<bool>) -> AttemptView
        decreases results.len(),
    {
        if results.len() == 0 {
            self
        } else {
            self.after(results.drop_last()).stepped(results.last())
        }
    }
}

#[derive(Debug, Clone, Copy, PartialEq, Eq, Structural)]
enum Stage {
    Writing(usize),
    Flushing,
    Syncing,
    Finished,
}

/// A batch on its way into a file.
pub struct FlushAttempt {
    runs: usize,
    fsync: bool,
    attempt: u32,
    stage: Stage,
    failed: bool,
}

impl View for FlushAttempt {
    type V = AttemptView;

    closed spec fn view(&self) -> AttemptView {
        AttemptView {
            runs: self.runs as nat,
            fsync: self.fsync,
            attempt: self.attempt as nat,
            at: match self.stage {
                Stage::Writing(i) => i as nat,
                Stage::Flushing => self.runs as nat,
                Stage::Syncing => (self.runs + 1) as nat,
                Stage::Finished => plan(self.runs as nat, self.fsync).len(),
            },
            failed: self.failed,
        }
    }
}

impl FlushAttempt {
    pub closed spec fn wf(&self) -> bool {
        &&& self@.wf()
        &&& self.stage matches Stage::Writing(i) ==> i < self.runs
        &&& self.stage is Syncing ==> self.fsync
    }

    fn first_stage(runs: usize) -> (res: Stage)
        ensures
            res == (if runs == 0 {
                Stage::Flushing
            } else {
                Stage::Writing(0)
            }),
    {
        if runs == 0 {
            Stage::Flushing
        } else {
            Stage::Writing(0)
        }
    }

    /// Begins to write a batch of this many runs.
    pub fn new(runs: usize, fsync: bool) -> (res: Self)
        ensures
            res.wf(),
            res@ == AttemptView::start(runs as nat, fsync),
    {
        FlushAttempt { runs, fsync, attempt: 0, stage: Self::first_stage(runs), failed: false }
    }

    /// What to do next.
    pub fn action(&self) -> (res: FlushAction)
        requires
            self.wf(),
        ensures
            res == self@.action(),
    {
        if self.failed {
            return FlushAction::Restore { retry: self.attempt + 1 < MAX_RETRIES };
        }
        match self.stage {
            Stage::Finished => FlushAction::Done,
            _ if self.attempt == MAX_RETRIES => FlushAction::GaveUp,
            Stage::Writing(i) => FlushAction::Write(i),
            Stage::Flushing => FlushAction::Flush,
            Stage::Syncing => FlushAction::Sync,
        }
    }

    /// The next thing was done, and succeeded or failed. Whether cutting the
    /// file back succeeded makes no difference.
    pub fn step(&mut self, ok: bool)
        requires
            old(self).wf(),
        ensures
            final(self).wf(),
            final(self)@ == old(self)@.stepped(ok),
    {
        if self.failed {
            self.attempt = self.attempt + 1;
            self.stage = Self::first_stage(self.runs);
            self.failed = false;
            return;
        }
        let finished = match self.stage {
            Stage::Finished => true,
            _ => false,
        };
        if finished || self.attempt == MAX_RETRIES {
            return;
        }
        if !ok {
            self.failed = true;
            return;
        }
        self.stage = match self.stage {
            Stage::Writing(i) => if i + 1 < self.runs {
                Stage::Writing(i + 1)
            } else {
                Stage::Flushing
            },
            Stage::Flushing => if self.fsync {
                Stage::Syncing
            } else {
                Stage::Finished
            },
            _ => Stage::Finished,
        };
    }
}

/// Whether the operations from result `k` on are those of a try, in order, up
/// to where the flush is, and all succeeded.
pub open spec fn whole_from(v: AttemptView, results: Seq<bool>, k: int) -> bool {
    let n = v.after(results).at;
    &&& 0 <= k
    &&& k + n <= results.len()
    &&& forall|j: int|
        k <= j < k + n ==> #[trigger] results[j] && v.after(results.take(j)).action() == plan(
            v.runs,
            v.fsync,
        )[j - k]
}

proof fn lemma_after_wf(v: AttemptView, results: Seq<bool>)
    requires
        v.wf(),
    ensures
        v.after(results).wf(),
        v.after(results).runs == v.runs,
        v.after(results).fsync == v.fsync,
    decreases results.len(),
{
    if results.len() > 0 {
        lemma_after_wf(v, results.drop_last());
    }
}

proof fn lemma_whole(v: AttemptView, results: Seq<bool>) -> (k: int)
    requires
        v.wf(),
        v.at == 0,
        !v.failed,
    ensures
        v.after(results).failed || whole_from(v, results, k),
        !(v.after(results).failed || v.after(results).action() is Done || v.after(
            results,
        ).action() is GaveUp) ==> k + v.after(results).at == results.len(),
    decreases results.len(),
{
    lemma_after_wf(v, results);
    if results.len() == 0 {
        0
    } else {
        let before = results.drop_last();
        let k = lemma_whole(v, before);
        lemma_after_wf(v, before);
        let w = v.after(before);
        let s = v.after(results);
        assert(s == w.stepped(results.last()));
        if w.failed {
            results.len() as int
        } else if s.failed {
            0
        } else {
            assert forall|j: int| k <= j < k + s.at implies #[trigger] results[j] && v.after(
                results.take(j),
            ).action() == plan(v.runs, v.fsync)[j - k] by {
                if j < before.len() {
                    assert(results.take(j) =~= before.take(j));
                    assert(before[j] == results[j]);
                } else {
                    assert(results.take(j) =~= before);
                }
            }
            k
        }
    }
}

/// A batch counts as written only if its runs were written, all of them and in
/// order, then flushed, then synced if that was asked for, with no failure
/// among these.
pub proof fn flush_is_whole(runs: nat, fsync: bool, results: Seq<bool>)
    requires
        runs <= usize::MAX,
        AttemptView::start(runs, fsync).after(results).action() is Done,
    ensures
        ({
            let v = AttemptView::start(runs, fsync);
            &&& v.after(results).at == plan(runs, fsync).len()
            &&& exists|k: int| #[trigger] whole_from(v, results, k)
        }),
{
    let v = AttemptView::start(runs, fsync);
    let k = lemma_whole(v, results);
    lemma_after_wf(v, results);
    assert(whole_from(v, results, k));
}

/// A try that fails is undone before anything else is written.
pub proof fn failure_is_undone(v: AttemptView)
    requires
        v.wf(),
        !(v.action() is Restore),
        !(v.action() is Done),
        !(v.action() is GaveUp),
    ensures
        v.stepped(false).action() is Restore,
        v.stepped(false).stepped(true).at == 0,
{
}

} // verus!
