//! The `--retry` decisions of the executor for a group of products run
//! together: the first attempt covers every product, each later attempt
//! re-runs only those that failed the one before, up to `1 + retry`
//! attempts; a product that passes on a later attempt is flaky. A single
//! product is the group of one.

use vstd::prelude::*;

verus! {

/// The pending products that fail again and may still be retried, in
/// order, among the first `k` results.
pub open spec fn still_failing(pending: Seq<usize>, ok: Seq<bool>, retrying: bool, k: int) -> Seq<usize>
    decreases k,
{
    if k <= 0 {
        Seq::empty()
    } else if !ok[k - 1] && retrying {
        still_failing(pending, ok, retrying, k - 1).push(pending[k - 1])
    } else {
        still_failing(pending, ok, retrying, k - 1)
    }
}

/// The final outcomes once the first `k` results are settled: a product
/// that passes, or fails with no attempt left, has its outcome.
pub open spec fn settled(finals: Seq<Option<bool>>, pending: Seq<usize>, ok: Seq<bool>, retrying: bool, k: int) -> Seq<
    Option<bool>,
>
    decreases k,
{
    if k <= 0 {
        finals
    } else if !ok[k - 1] && retrying {
        settled(finals, pending, ok, retrying, k - 1)
    } else {
        settled(finals, pending, ok, retrying, k - 1).update(pending[k - 1] as int, Some(ok[k - 1]))
    }
}

/// The products among the first `k` results that pass on a retry (an
/// attempt after the first), in order.
pub open spec fn passed_on_retry(pending: Seq<usize>, ok: Seq<bool>, later: bool, k: int) -> Seq<usize>
    decreases k,
{
    if k <= 0 {
        Seq::empty()
    } else if ok[k - 1] && later {
        passed_on_retry(pending, ok, later, k - 1).push(pending[k - 1])
    } else {
        passed_on_retry(pending, ok, later, k - 1)
    }
}

/// The retry state of a group of products.
pub struct RetryGroup {
    max_attempts: usize,
    made: usize,
    pending: Vec<usize>,
    finals: Vec<Option<bool>>,
    flaky: Vec<usize>,
}

/// What to do after an attempt.
#[derive(Debug, Clone, Copy, PartialEq, Eq, Structural)]
pub enum GroupStep {
    /// Run the pending products again.
    Retry,
    /// Every product has its final outcome.
    Done,
}

impl RetryGroup {
    /// Attempts allowed: one plus the retries.
    pub closed spec fn max_attempts(&self) -> nat {
        self.max_attempts as nat
    }

    /// Attempts made so far.
    pub closed spec fn made(&self) -> nat {
        self.made as nat
    }

    /// The products (positions in the group) the next attempt runs, in
    /// order.
    pub closed spec fn pending_view(&self) -> Seq<usize> {
        self.pending@
    }

    /// The final outcome of each product so far: passed, failed, or not
    /// settled yet.
    pub closed spec fn finals_view(&self) -> Seq<Option<bool>> {
        self.finals@
    }

    /// The products that passed on a retry, in the order they passed.
    pub closed spec fn flaky_view(&self) -> Seq<usize> {
        self.flaky@
    }

    /// Each pending product is a position in the group.
    pub closed spec fn wf(&self) -> bool {
        &&& forall|j: int| 0 <= j < self.pending@.len() ==> #[trigger] self.pending@[j] < self.finals@.len()
        &&& self.made <= self.max_attempts
    }

    /// The state before the first attempt of a group of `n` products with
    /// `retry` retries: every product pending, none settled.
    pub fn start(n: usize, retry: usize) -> (r: RetryGroup)
        requires
            retry < usize::MAX,
        ensures
            r.wf(),
            r.max_attempts() == retry + 1,
            r.made() == 0,
            r.pending_view() == Seq::new(n as nat, |i: int| i as usize),
            r.finals_view() == Seq::new(n as nat, |i: int| None::<bool>),
            r.flaky_view().len() == 0,
    {
        let mut pending: Vec<usize> = Vec::new();
        let mut finals: Vec<Option<bool>> = Vec::new();
        let mut i: usize = 0;
        while i < n
            invariant
                0 <= i <= n,
                pending@ == Seq::new(i as nat, |j: int| j as usize),
                finals@ == Seq::new(i as nat, |j: int| None::<bool>),
            decreases n - i,
        {
            pending.push(i);
            finals.push(None);
            proof {
                assert(pending@ =~= Seq::new((i + 1) as nat, |j: int| j as usize));
                assert(finals@ =~= Seq::new((i + 1) as nat, |j: int| None::<bool>));
            }
            i = i + 1;
        }
        RetryGroup { max_attempts: retry + 1, made: 0, pending, finals, flaky: Vec::new() }
    }

    /// The products the next attempt runs.
    pub fn pending(&self) -> (r: &Vec<usize>)
        ensures
            r@ == self.pending_view(),
    {
        &self.pending
    }

    /// The final outcomes so far.
    pub fn finals(&self) -> (r: &Vec<Option<bool>>)
        ensures
            r@ == self.finals_view(),
    {
        &self.finals
    }

    /// The products that passed on a retry.
    pub fn flaky(&self) -> (r: &Vec<usize>)
        ensures
            r@ == self.flaky_view(),
    {
        &self.flaky
    }

    /// Records the results of an attempt (`ok[j]` for the `j`-th pending
    /// product): a failure is retried while attempts remain, any other
    /// result is final; a pass after the first attempt is flaky. `Done`
    /// when nothing is left to retry.
    pub fn record(&mut self, ok: &Vec<bool>) -> (r: GroupStep)
        requires
            old(self).wf(),
            old(self).made() < old(self).max_attempts(),
            ok@.len() == old(self).pending_view().len(),
        ensures
            final(self).wf(),
            final(self).max_attempts() == old(self).max_attempts(),
            final(self).made() == old(self).made() + 1,
            final(self).pending_view() == still_failing(
                old(self).pending_view(),
                ok@,
                final(self).made() < final(self).max_attempts(),
                ok@.len() as int,
            ),
            final(self).finals_view() == settled(
                old(self).finals_view(),
                old(self).pending_view(),
                ok@,
                final(self).made() < final(self).max_attempts(),
                ok@.len() as int,
            ),
            final(self).flaky_view() == old(self).flaky_view() + passed_on_retry(
                old(self).pending_view(),
                ok@,
                old(self).made() > 0,
                ok@.len() as int,
            ),
            r == (if final(self).pending_view().len() == 0 {
                GroupStep::Done
            } else {
                GroupStep::Retry
            }),
    {
        let attempt: usize = self.made + 1;
        let retrying: bool = attempt < self.max_attempts;
        let later: bool = self.made > 0;
        let ghost p0 = self.pending@;
        let ghost f0 = self.finals@;
        let ghost fl0 = self.flaky@;
        let mut next: Vec<usize> = Vec::new();
        let mut j: usize = 0;
        while j < ok.len()
            invariant
                0 <= j <= ok.len(),
                self.max_attempts == old(self).max_attempts,
                self.made == old(self).made,
                ok@.len() == p0.len(),
                self.pending@ == p0,
                forall|q: int| 0 <= q < p0.len() ==> #[trigger] p0[q] < f0.len(),
                self.finals@.len() == f0.len(),
                next@ == still_failing(p0, ok@, retrying, j as int),
                self.finals@ == settled(f0, p0, ok@, retrying, j as int),
                self.flaky@ == fl0 + passed_on_retry(p0, ok@, later, j as int),
                forall|q: int| 0 <= q < next@.len() ==> #[trigger] next@[q] < f0.len(),
            decreases ok.len() - j,
        {
            let idx: usize = self.pending[j];
            if !ok[j] && retrying {
                next.push(idx);
            } else {
                self.finals.set(idx, Some(ok[j]));
            }
            if ok[j] && later {
                let ghost before = self.flaky@;
                self.flaky.push(idx);
                proof {
                    assert(self.flaky@ =~= fl0 + passed_on_retry(p0, ok@, later, j + 1));
                }
            }
            j = j + 1;
        }
        self.pending = next;
        self.made = attempt;
        if self.pending.len() == 0 {
            GroupStep::Done
        } else {
            GroupStep::Retry
        }
    }
}

} // verus!
