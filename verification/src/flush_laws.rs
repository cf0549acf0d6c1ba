//! What a flush does to its file, operation by operation.

use vstd::prelude::*;
use crate::flush_attempt;
use crate::flush_attempt::{AttemptView, FlushAction};

verus! {

/// Whether the operation number `j` of a flush was this one, and succeeded.
pub open spec fn did(v: AttemptView, results: Seq<bool>, j: int, action: FlushAction) -> bool {
    &&& 0 <= j < results.len()
    &&& results[j]
    &&& v.after(results.take(j)).action() == action
}

/// Whether the operations from number `k` on put a whole batch into the file:
/// they wrote its runs, one after the other, and flushed, and synced if that
/// was asked for.
pub open spec fn put_whole(runs: nat, fsync: bool, results: Seq<bool>, k: int) -> bool {
    let v = AttemptView::start(runs, fsync);
    &&& forall|i: int|
        0 <= i < runs ==> #[trigger] did(v, results, k + i, FlushAction::Write(i as usize))
    &&& did(v, results, k + runs, FlushAction::Flush)
    &&& fsync ==> did(v, results, k + runs + 1, FlushAction::Sync)
}

/// A flush is done only once every run of its batch was written, in order and
/// without a failure among them, then flushed and, if that was asked for,
/// synced; however many runs there are.
pub proof fn done_flush_put_every_run(runs: nat, fsync: bool, results: Seq<bool>)
    requires
        runs <= usize::MAX,
        AttemptView::start(runs, fsync).after(results).action() is Done,
    ensures
        exists|k: int| #[trigger] put_whole(runs, fsync, results, k),
{
    let v = AttemptView::start(runs, fsync);
    flush_attempt::flush_is_whole(runs, fsync, results);
    let k = choose|k: int| #[trigger] flush_attempt::whole_from(v, results, k);
    let plan = flush_attempt::plan(runs, fsync);
    assert(plan[runs as int] == FlushAction::Flush);
    assert(fsync ==> plan[(runs + 1) as int] == FlushAction::Sync);
    assert forall|i: int| 0 <= i < runs implies #[trigger] did(
        v,
        results,
        k + i,
        FlushAction::Write(i as usize),
    ) by {
        assert(plan[i] == FlushAction::Write(i as usize));
        assert(results[k + i]);
    }
    assert(results[k + runs as int]);
    if fsync {
        assert(results[k + runs + 1]);
    }
    assert(put_whole(runs, fsync, results, k));
}

/// This many successes.
pub open spec fn successes(n: nat) -> Seq<bool> {
    Seq::new(n, |i: int| true)
}

proof fn lemma_all_good(runs: nat, fsync: bool, n: nat)
    requires
        n <= flush_attempt::plan(runs, fsync).len(),
    ensures
        ({
            let w = AttemptView::start(runs, fsync).after(successes(n));
            w.at == n && !w.failed && w.attempt == 0 && w.runs == runs && w.fsync == fsync
        }),
    decreases n,
{
    if n > 0 {
        let m = (n - 1) as nat;
        lemma_all_good(runs, fsync, m);
        let good = successes(n);
        assert(good.drop_last() =~= successes(m));
        assert(good.last());
        assert(flush_attempt::plan(runs, fsync)[m as int] is Write
            || flush_attempt::plan(runs, fsync)[m as int] is Flush
            || flush_attempt::plan(runs, fsync)[m as int] is Sync);
    }
}

/// A flush of which nothing fails is done after one write for each run, one
/// flush and, if that was asked for, one sync.
pub proof fn flush_without_failure_is_done(runs: nat, fsync: bool)
    requires
        runs <= usize::MAX,
    ensures
        ({
            let n = if fsync {
                runs + 2
            } else {
                runs + 1
            };
            let v = AttemptView::start(runs, fsync);
            &&& v.after(successes(n)).action() is Done
            &&& forall|m: nat|
                m < n ==> !((#[trigger] v.after(successes(m))).action() is Done)
        }),
{
    let n = flush_attempt::plan(runs, fsync).len();
    let v = AttemptView::start(runs, fsync);
    lemma_all_good(runs, fsync, n);
    assert forall|m: nat| m < n implies !((#[trigger] v.after(
        successes(m),
    )).action() is Done) by {
        lemma_all_good(runs, fsync, m);
    }
}

/// How many operations on the file have failed.
pub open spec fn failures(v: AttemptView, results: Seq<bool>) -> nat
    decreases results.len(),
{
    if results.len() == 0 {
        0
    } else {
        let action = v.after(results.drop_last()).action();
        let touches = action is Write || action is Flush || action is Sync;
        failures(v, results.drop_last()) + (if touches && !results.last() {
            1nat
        } else {
            0nat
        })
    }
}

proof fn lemma_failures(runs: nat, fsync: bool, results: Seq<bool>)
    requires
        runs <= usize::MAX,
    ensures
        ({
            let v = AttemptView::start(runs, fsync);
            let w = v.after(results);
            &&& w.wf()
            &&& w.runs == runs && w.fsync == fsync
            &&& failures(v, results) == w.attempt + (if w.failed {
                1nat
            } else {
                0nat
            })
        }),
    decreases results.len(),
{
    if results.len() > 0 {
        lemma_failures(runs, fsync, results.drop_last());
        let w = AttemptView::start(runs, fsync).after(results.drop_last());
        let plan = flush_attempt::plan(runs, fsync);
        if w.at < plan.len() {
            assert(plan[w.at as int] is Write || plan[w.at as int] is Flush
                || plan[w.at as int] is Sync);
        }
    }
}

/// A flush gives up after a thousand failures and not before. After each of them the
/// file is cut back, and after all but the last the flush tries again.
pub proof fn flush_gives_up_after_a_thousand_failures(runs: nat, fsync: bool, results: Seq<bool>)
    requires
        runs <= usize::MAX,
    ensures
        ({
            let v = AttemptView::start(runs, fsync);
            let action = v.after(results).action();
            let n = failures(v, results);
            &&& n <= 1000
            &&& action is GaveUp ==> n == 1000
            &&& n == 1000 ==> action is GaveUp || action == (FlushAction::Restore { retry: false })
            &&& action matches FlushAction::Restore { retry } ==> 1 <= n && retry == (n < 1000)
        }),
{
    lemma_failures(runs, fsync, results);
    let w = AttemptView::start(runs, fsync).after(results);
    let plan = flush_attempt::plan(runs, fsync);
    if w.at < plan.len() {
        assert(plan[w.at as int] is Write || plan[w.at as int] is Flush
            || plan[w.at as int] is Sync);
    }
    lemma_full_is_counted(runs, fsync, results);
}

proof fn lemma_full_is_counted(runs: nat, fsync: bool, results: Seq<bool>)
    requires
        runs <= usize::MAX,
    ensures
        ({
            let w = AttemptView::start(runs, fsync).after(results);
            w.attempt == 1000 ==> w.at == 0
        }),
    decreases results.len(),
{
    if results.len() > 0 {
        lemma_full_is_counted(runs, fsync, results.drop_last());
        lemma_failures(runs, fsync, results.drop_last());
    }
}

} // verus!
