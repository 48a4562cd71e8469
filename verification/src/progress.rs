//! How far training or evaluation has come.

use std::sync::{Arc, Mutex};
use vstd::prelude::*;

verus! {

/// How many items of how many were processed.
#[derive(Clone, Copy, Debug, PartialEq, Eq, Structural)]
pub struct ItemProgress {
    /// The items that were processed.
    pub current: usize,
    /// All items.
    pub total: usize,
}

/// How far one training run has come.
#[derive(Clone, Copy, Debug, PartialEq, Eq, Structural)]
pub struct ProgressState {
    /// The epoch, from 1; 0 before training starts.
    pub epoch: usize,
    /// The number of epochs.
    pub epoch_total: usize,
    /// The items that were processed in the epoch.
    pub items_processed: usize,
    /// The items of an epoch.
    pub items_total: usize,
}

impl Default for ProgressState {
    fn default() -> (r: Self)
        ensures
            r == (ProgressState { epoch: 0, epoch_total: 0, items_processed: 0, items_total: 0 }),
    {
        ProgressState { epoch: 0, epoch_total: 0, items_processed: 0, items_total: 0 }
    }
}

impl ProgressState {
    /// The items that were processed in all epochs.
    pub open spec fn done(self) -> int {
        if self.epoch == 0 {
            self.items_processed as int
        } else {
            (self.epoch - 1) * self.items_total + self.items_processed
        }
    }

    /// The items of all epochs.
    pub open spec fn planned(self) -> int {
        self.epoch_total * self.items_total
    }

    /// The items that were processed in all epochs.
    pub fn current(&self) -> (r: usize)
        requires
            self.done() <= usize::MAX,
        ensures
            r == self.done(),
    {
        let epochs: usize = self.epoch.saturating_sub(1);
        proof {
            assert(0 <= epochs * self.items_total) by (nonlinear_arith)
                requires
                    epochs >= 0,
                    self.items_total >= 0,
            ;
            assert(epochs * self.items_total + self.items_processed == self.done()) by {
                if self.epoch == 0 {
                    assert(epochs == 0);
                    assert(0 * self.items_total == 0);
                } else {
                    assert(epochs == self.epoch - 1);
                }
            }
        }
        epochs * self.items_total + self.items_processed
    }

    /// The items of all epochs.
    pub fn total(&self) -> (r: usize)
        requires
            self.planned() <= usize::MAX,
        ensures
            r == self.planned(),
    {
        self.epoch_total * self.items_total
    }
}

/// The sum of what was done in each run.
pub open spec fn sum_done(splits: Seq<ProgressState>) -> int
    decreases splits.len(),
{
    if splits.len() == 0 {
        0
    } else {
        sum_done(splits.drop_last()) + splits.last().done()
    }
}

/// The sum of what is planned for each run.
pub open spec fn sum_planned(splits: Seq<ProgressState>) -> int
    decreases splits.len(),
{
    if splits.len() == 0 {
        0
    } else {
        sum_planned(splits.drop_last()) + splits.last().planned()
    }
}

/// How far all training runs have come, and whether they are to stop.
#[derive(Debug)]
pub struct CombinedProgressState {
    /// Whether the runs are to stop.
    pub want_abort: bool,
    /// The runs.
    pub splits: Vec<ProgressState>,
    finished: bool,
}

impl Default for CombinedProgressState {
    fn default() -> (r: Self)
        ensures
            !r.wants_abort(),
            r.runs() == Seq::<ProgressState>::empty(),
            !r.is_finished(),
    {
        CombinedProgressState { want_abort: false, splits: Vec::new(), finished: false }
    }
}

/// `Mutex` of the standard library.
#[verifier::external_type_specification]
#[verifier::external_body]
#[verifier::reject_recursive_types(T)]
pub struct ExMutex<T: ?Sized>(std::sync::Mutex<T>);

/// What a mutex was made with.
pub uninterp spec fn made_with(mutex: Mutex<CombinedProgressState>) -> CombinedProgressState;

/// A mutex, with `Mutex::new` of the standard library.
///
/// Not proved: that the mutex is made with the state given. Nothing is claimed of what it
/// holds later.
#[verifier::external_body]
fn mutex_of(state: CombinedProgressState) -> (r: Mutex<CombinedProgressState>)
    ensures
        made_with(r) == state,
{
    Mutex::new(state)
}

impl CombinedProgressState {
    /// Whether the runs are to stop, in contracts.
    pub closed spec fn wants_abort(self) -> bool {
        self.want_abort
    }

    /// The runs, in contracts.
    pub closed spec fn runs(self) -> Seq<ProgressState> {
        self.splits@
    }

    /// Whether the runs are over, in contracts.
    pub closed spec fn is_finished(self) -> bool {
        self.finished
    }

    /// A state that can be shared, with no run in it.
    pub fn new_shared() -> (r: Arc<Mutex<Self>>)
        ensures
            !made_with(*r).wants_abort(),
            made_with(*r).runs() == Seq::<ProgressState>::empty(),
            !made_with(*r).is_finished(),
    {
        Arc::new(mutex_of(CombinedProgressState::default()))
    }

    /// The items that were processed in all runs.
    pub fn current(&self) -> (r: usize)
        requires
            sum_done(self.runs()) <= usize::MAX,
        ensures
            r == sum_done(self.runs()),
    {
        let mut sum: usize = 0;
        let mut i: usize = 0;
        while i < self.splits.len()
            invariant
                i <= self.splits@.len(),
                sum_done(self.splits@) <= usize::MAX,
                sum == sum_done(self.splits@.take(i as int)),
            decreases self.splits@.len() - i,
        {
            proof {
                lemma_done_step(self.splits@, i as int);
            }
            sum += self.splits[i].current();
            i += 1;
        }
        assert(self.splits@.take(i as int) =~= self.splits@);
        sum
    }

    /// The items of all runs.
    pub fn total(&self) -> (r: usize)
        requires
            sum_planned(self.runs()) <= usize::MAX,
        ensures
            r == sum_planned(self.runs()),
    {
        let mut sum: usize = 0;
        let mut i: usize = 0;
        while i < self.splits.len()
            invariant
                i <= self.splits@.len(),
                sum_planned(self.splits@) <= usize::MAX,
                sum == sum_planned(self.splits@.take(i as int)),
            decreases self.splits@.len() - i,
        {
            proof {
                lemma_planned_step(self.splits@, i as int);
            }
            sum += self.splits[i].total();
            i += 1;
        }
        assert(self.splits@.take(i as int) =~= self.splits@);
        sum
    }

    /// Whether the runs are over.
    pub fn finished(&self) -> (r: bool)
        ensures
            r == self.is_finished(),
    {
        self.finished
    }

    /// Replaces the runs by a single one that has not started.
    pub fn start(&mut self, epoch_total: usize, items_total: usize)
        ensures
            final(self).runs() == seq![
                ProgressState { epoch: 0, epoch_total, items_processed: 0, items_total },
            ],
            final(self).wants_abort() == old(self).wants_abort(),
            final(self).is_finished() == old(self).is_finished(),
    {
        let mut splits: Vec<ProgressState> = Vec::with_capacity(1);
        splits.push(ProgressState { epoch: 0, epoch_total, items_processed: 0, items_total });
        self.splits = splits;
        assert(self.splits@ =~= seq![
            ProgressState { epoch: 0, epoch_total, items_processed: 0, items_total },
        ]);
    }

    /// Notes how far run `index` has come, and says whether it is to stop.
    pub fn render_train(&mut self, index: usize, state: ProgressState) -> (r: bool)
        requires
            index < old(self).runs().len(),
        ensures
            final(self).runs() == old(self).runs().update(index as int, state),
            final(self).wants_abort() == old(self).wants_abort(),
            final(self).is_finished() == old(self).is_finished(),
            r == old(self).wants_abort(),
    {
        self.splits.set(index, state);
        self.want_abort
    }

    /// Notes that the runs are over.
    pub fn finish(&mut self)
        ensures
            final(self).is_finished(),
            final(self).runs() == old(self).runs(),
            final(self).wants_abort() == old(self).wants_abort(),
    {
        self.finished = true;
    }
}

proof fn lemma_done_step(splits: Seq<ProgressState>, i: int)
    requires
        0 <= i < splits.len(),
    ensures
        sum_done(splits.take(i + 1)) == sum_done(splits.take(i)) + splits[i].done(),
        sum_done(splits.take(i + 1)) <= sum_done(splits),
        0 <= sum_done(splits.take(i)),
        0 <= splits[i].done(),
{
    assert(splits.take(i + 1).drop_last() =~= splits.take(i));
    lemma_done_grows(splits, i + 1);
    lemma_done_grows(splits.take(i), 0);
    lemma_done_positive(splits[i]);
}

proof fn lemma_done_positive(state: ProgressState)
    ensures
        0 <= state.done(),
{
    if state.epoch > 0 {
        assert(0 <= (state.epoch - 1) * state.items_total) by (nonlinear_arith)
            requires
                state.epoch > 0,
                state.items_total >= 0,
        ;
    }
}

proof fn lemma_done_grows(splits: Seq<ProgressState>, i: int)
    requires
        0 <= i <= splits.len(),
    ensures
        sum_done(splits.take(i)) <= sum_done(splits),
        sum_done(splits.take(0)) == 0,
    decreases splits.len(),
{
    if i == splits.len() {
        assert(splits.take(i) =~= splits);
    } else {
        lemma_done_grows(splits.drop_last(), i);
        assert(splits.drop_last().take(i) =~= splits.take(i));
        lemma_done_positive(splits.last());
    }
}

proof fn lemma_planned_step(splits: Seq<ProgressState>, i: int)
    requires
        0 <= i < splits.len(),
    ensures
        sum_planned(splits.take(i + 1)) == sum_planned(splits.take(i)) + splits[i].planned(),
        sum_planned(splits.take(i + 1)) <= sum_planned(splits),
        0 <= sum_planned(splits.take(i)),
        0 <= splits[i].planned(),
{
    assert(splits.take(i + 1).drop_last() =~= splits.take(i));
    lemma_planned_grows(splits, i + 1);
    lemma_planned_grows(splits.take(i), 0);
    lemma_planned_positive(splits[i]);
}

proof fn lemma_planned_positive(state: ProgressState)
    ensures
        0 <= state.planned(),
{
    assert(0 <= state.epoch_total * state.items_total) by (nonlinear_arith)
        requires
            state.epoch_total >= 0,
            state.items_total >= 0,
    ;
}

proof fn lemma_planned_grows(splits: Seq<ProgressState>, i: int)
    requires
        0 <= i <= splits.len(),
    ensures
        sum_planned(splits.take(i)) <= sum_planned(splits),
        sum_planned(splits.take(0)) == 0,
    decreases splits.len(),
{
    if i == splits.len() {
        assert(splits.take(i) =~= splits);
    } else {
        lemma_planned_grows(splits.drop_last(), i);
        assert(splits.drop_last().take(i) =~= splits.take(i));
        lemma_planned_positive(splits.last());
    }
}

/// A run that is in one of its epochs has done no more than is planned. Where it has items
/// to process, it has done all of it in the last step of the last epoch, and not before.
pub proof fn law_progress_ends_at_the_total(state: ProgressState)
    requires
        1 <= state.epoch <= state.epoch_total,
        state.items_processed <= state.items_total,
    ensures
        0 <= state.done() <= state.planned(),
        state.items_total > 0 ==> (state.done() == state.planned() <==> state.epoch
            == state.epoch_total && state.items_processed == state.items_total),
        state.items_total == 0 ==> state.done() == state.planned(),
{
    lemma_done_positive(state);
    assert((state.epoch - 1) * state.items_total + state.items_total == state.epoch
        * state.items_total) by (nonlinear_arith);
    assert(state.epoch * state.items_total <= state.epoch_total * state.items_total)
        by (nonlinear_arith)
        requires
            state.epoch <= state.epoch_total,
            state.items_total >= 0,
    ;
    if state.epoch < state.epoch_total && state.items_total > 0 {
        assert(state.epoch * state.items_total < state.epoch_total * state.items_total)
            by (nonlinear_arith)
            requires
                state.epoch < state.epoch_total,
                state.items_total > 0,
        ;
    }
    if state.items_total == 0 {
        assert(state.epoch * 0 == 0 && state.epoch_total * 0 == 0);
    }
}

/// Each item that is processed adds one to what is done, and an epoch begins where the one
/// before it ended. Before the first epoch only the items that were processed count.
pub proof fn law_progress_counts_every_item(state: ProgressState, more: ProgressState)
    requires
        more.epoch_total == state.epoch_total,
        more.items_total == state.items_total,
    ensures
        more.epoch == state.epoch && more.items_processed == state.items_processed + 1 ==> more.done()
            == state.done() + 1,
        state.epoch >= 1 && state.items_processed == state.items_total && more.epoch == state.epoch
            + 1 && more.items_processed == 0 ==> more.done() == state.done(),
        state.epoch <= 1 ==> state.done() == state.items_processed,
{
    if state.epoch >= 1 {
        assert((state.epoch - 1) * state.items_total + state.items_total == state.epoch
            * state.items_total) by (nonlinear_arith);
    }
    assert(0 * state.items_total == 0);
}

/// Each epoch adds all items to what is planned, and without epochs nothing is planned.
pub proof fn law_plans_count_every_epoch(state: ProgressState, more: ProgressState)
    requires
        more.items_total == state.items_total,
        more.epoch_total == state.epoch_total + 1,
    ensures
        more.planned() == state.planned() + state.items_total,
        state.epoch_total == 0 ==> state.planned() == 0,
{
    assert((state.epoch_total + 1) * state.items_total == state.epoch_total * state.items_total
        + state.items_total) by (nonlinear_arith);
    assert(0 * state.items_total == 0);
}

/// What is done and planned in several runs is what is done and planned in each, added up:
/// each run counts once.
pub proof fn law_runs_are_added_up(splits: Seq<ProgressState>, run: ProgressState)
    ensures
        sum_done(Seq::<ProgressState>::empty()) == 0,
        sum_planned(Seq::<ProgressState>::empty()) == 0,
        sum_done(splits.push(run)) == sum_done(splits) + run.done(),
        sum_planned(splits.push(run)) == sum_planned(splits) + run.planned(),
{
    assert(splits.push(run).drop_last() =~= splits);
}

} // verus!
