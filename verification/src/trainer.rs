//! The course of a training run.
//!
//! Every epoch trains on all batches, in an order shuffled anew, and then validates. The
//! parameters with the best validation loss are the result. A `Trainer` says what is due;
//! the caller computes it and tells the trainer what came of it.

use crate::double::Double;
use crate::shuffle::{rng_from_seed, shuffled_places};
use rand::rngs::StdRng;
use vstd::prelude::*;

verus! {

/// What is due in a training run.
#[derive(Clone, Copy, Debug, PartialEq, Eq, Structural)]
pub enum Action {
    /// A step on a batch. Epochs and iterations count from 1.
    Train {
        /// The batch.
        batch: usize,
        /// The epoch.
        epoch: usize,
        /// The place of the batch in the epoch.
        iteration: usize,
    },
    /// The validation of an epoch.
    Validate {
        /// The epoch.
        epoch: usize,
    },
    /// Nothing: the run is over.
    Finish {
        /// Whether it was stopped before its end.
        interrupted: bool,
    },
}

/// What a training run is.
pub struct Course {
    /// The seed of the shuffles.
    pub seed: u64,
    /// The number of epochs.
    pub epochs: nat,
    /// The number of batches to train on.
    pub batches: nat,
    /// The number of batches to validate with.
    pub valid_batches: nat,
}

/// What is due at the start of an epoch.
pub open spec fn epoch_start(course: Course, epoch: int) -> Action {
    if epoch > course.epochs {
        Action::Finish { interrupted: false }
    } else if course.batches == 0 {
        Action::Validate { epoch: epoch as usize }
    } else {
        Action::Train {
            batch: crate::shuffle::epoch_order(course.seed, course.batches, epoch as nat)[0],
            epoch: epoch as usize,
            iteration: 1,
        }
    }
}

/// What is due after `action`, where the run was asked to stop or not.
pub open spec fn following(course: Course, action: Action, stop: bool) -> Action {
    match action {
        Action::Train { batch, epoch, iteration } => if stop {
            Action::Finish { interrupted: true }
        } else if iteration < course.batches {
            Action::Train {
                batch: crate::shuffle::epoch_order(course.seed, course.batches, epoch as nat)[iteration as int],
                epoch,
                iteration: (iteration + 1) as usize,
            }
        } else {
            Action::Validate { epoch }
        },
        Action::Validate { epoch } => epoch_start(course, epoch + 1),
        Action::Finish { interrupted } => action,
    }
}

/// A training run.
#[derive(Debug)]
pub struct Trainer {
    seed: u64,
    epochs: usize,
    batches: usize,
    valid_order: Vec<usize>,
    rng: StdRng,
    epoch: usize,
    order: Vec<usize>,
    due: Action,
    best_loss: Double,
}

impl Trainer {
    /// The run that this is, in contracts.
    pub closed spec fn course(self) -> Course {
        Course {
            seed: self.seed,
            epochs: self.epochs as nat,
            batches: self.batches as nat,
            valid_batches: self.valid_order@.len(),
        }
    }

    /// What is due, in contracts.
    pub closed spec fn is_due(self) -> Action {
        self.due
    }

    /// The best validation loss so far, in contracts.
    pub closed spec fn best(self) -> Double {
        self.best_loss
    }

    /// The order of the validation batches, in contracts.
    pub closed spec fn validates_in(self) -> Seq<usize> {
        self.valid_order@
    }

    /// Whether the trainer is in a state that a run goes through.
    pub closed spec fn wf(self) -> bool {
        let n = self.batches as nat;
        let v = self.valid_order@;
        &&& v == crate::shuffle::epoch_order(self.seed, v.len(), 1)
        &&& v.to_multiset() == crate::shuffle::places(v.len()).to_multiset()
        &&& v.len() <= usize::MAX
        &&& self.epoch <= self.epochs
        &&& self.epoch > 0 ==> {
            &&& self.order@ == crate::shuffle::epoch_order(self.seed, n, self.epoch as nat)
            &&& self.order@.to_multiset() == crate::shuffle::places(n).to_multiset()
        }
        &&& self.rng == crate::shuffle::rng_before(self.seed, n, (self.epoch + 1) as nat)
        &&& match self.due {
            Action::Train { batch, epoch, iteration } => {
                &&& 1 <= epoch == self.epoch
                &&& 1 <= iteration <= n
                &&& batch == self.order@[iteration - 1]
            },
            Action::Validate { epoch } => 1 <= epoch == self.epoch,
            Action::Finish { interrupted } => true,
        }
    }

    /// A run of `epochs` epochs on `batches` batches.
    pub fn new(seed: u64, epochs: usize, batches: usize, valid_batches: usize) -> (r: Trainer)
        ensures
            r.wf(),
            r.course() == (Course {
                seed,
                epochs: epochs as nat,
                batches: batches as nat,
                valid_batches: valid_batches as nat,
            }),
            r.is_due() == epoch_start(r.course(), 1),
            r.validates_in() == crate::shuffle::epoch_order(seed, valid_batches as nat, 1),
            r.best() == (Double { bits: 0x7ff0_0000_0000_0000 }),
    {
        let mut valid_rng = rng_from_seed(seed);
        let valid_order = shuffled_places(valid_batches, &mut valid_rng);
        let rng = rng_from_seed(seed);
        proof {
            crate::shuffle::lemma_shuffled_places(valid_batches as nat, valid_order@);
        }
        let mut r = Trainer {
            seed,
            epochs,
            batches,
            valid_order,
            rng,
            epoch: 0,
            order: Vec::new(),
            due: Action::Finish { interrupted: false },
            best_loss: Double::from_bits(0x7ff0_0000_0000_0000),
        };
        r.start_epoch();
        r
    }

    fn start_epoch(&mut self)
        requires
            old(self).wf(),
        ensures
            final(self).wf(),
            final(self).course() == old(self).course(),
            final(self).validates_in() == old(self).validates_in(),
            final(self).best() == old(self).best(),
            final(self).is_due() == epoch_start(old(self).course(), old(self).epoch + 1),
    {
        if self.epoch >= self.epochs {
            self.due = Action::Finish { interrupted: false };
            return ;
        }
        self.order = shuffled_places(self.batches, &mut self.rng);
        self.epoch = self.epoch + 1;
        proof {
            crate::shuffle::lemma_shuffled_places(self.batches as nat, self.order@);
        }
        if self.batches == 0 {
            self.due = Action::Validate { epoch: self.epoch };
        } else {
            self.due = Action::Train { batch: self.order[0], epoch: self.epoch, iteration: 1 };
        }
    }

    /// What is due. A batch to train on is one of the batches of the run.
    pub fn due(&self) -> (r: Action)
        requires
            self.wf(),
        ensures
            r == self.is_due(),
            r matches Action::Train { batch, epoch, iteration } ==> {
                &&& batch < self.course().batches
                &&& 1 <= epoch <= self.course().epochs
                &&& 1 <= iteration <= self.course().batches
                &&& batch == crate::shuffle::epoch_order(
                    self.course().seed,
                    self.course().batches,
                    epoch as nat,
                )[iteration - 1]
            },
            r matches Action::Validate { epoch } ==> 1 <= epoch <= self.course().epochs,
    {
        proof {
            if self.epoch > 0 {
                crate::shuffle::lemma_shuffled_places(self.batches as nat, self.order@);
            }
        }
        self.due
    }

    /// The order in which the validation batches are scored.
    pub fn valid_order(&self) -> (r: &Vec<usize>)
        requires
            self.wf(),
        ensures
            r@ == self.validates_in(),
            forall|i: int| 0 <= i < r@.len() ==> #[trigger] r@[i] < self.course().valid_batches,
    {
        proof {
            crate::shuffle::lemma_shuffled_places(self.valid_order@.len(), self.valid_order@);
        }
        &self.valid_order
    }

    /// The best validation loss so far; positive infinity before the first.
    pub fn best_loss(&self) -> (r: Double)
        ensures
            r == self.best(),
    {
        self.best_loss
    }

    /// Notes that the step that was due was taken, and whether the run is to stop.
    pub fn trained(&mut self, stop: bool)
        requires
            old(self).wf(),
            old(self).is_due() is Train,
        ensures
            final(self).wf(),
            final(self).course() == old(self).course(),
            final(self).validates_in() == old(self).validates_in(),
            final(self).best() == old(self).best(),
            final(self).is_due() == following(old(self).course(), old(self).is_due(), stop),
    {
        if let Action::Train { batch: _, epoch, iteration } = self.due {
            proof {
                crate::shuffle::lemma_shuffled_places(self.batches as nat, self.order@);
            }
            if stop {
                self.due = Action::Finish { interrupted: true };
            } else if iteration < self.batches {
                self.due = Action::Train {
                    batch: self.order[iteration],
                    epoch,
                    iteration: iteration + 1,
                };
            } else {
                self.due = Action::Validate { epoch };
            }
        }
    }

    /// Notes the validation loss that was due, and says whether it is the best so far: only
    /// then are the parameters of the epoch the result.
    pub fn validated(&mut self, loss: Double) -> (r: bool)
        requires
            old(self).wf(),
            old(self).is_due() is Validate,
        ensures
            final(self).wf(),
            final(self).course() == old(self).course(),
            final(self).validates_in() == old(self).validates_in(),
            r == loss.below(old(self).best()),
            final(self).best() == if r {
                loss
            } else {
                old(self).best()
            },
            forall|losses: Seq<Double>|
                old(self).best() == #[trigger] best_of(losses) ==> final(self).best() == best_of(
                    losses.push(loss),
                ),
            final(self).is_due() == following(old(self).course(), old(self).is_due(), false),
    {
        proof {
            assert forall|losses: Seq<Double>| old(self).best() == #[trigger] best_of(losses) implies (if loss.below(
                old(self).best(),
            ) {
                loss
            } else {
                old(self).best()
            }) == best_of(losses.push(loss)) by {
                assert(losses.push(loss).drop_last() =~= losses);
            }
        }
        let better = loss.lt(self.best_loss);
        if better {
            self.best_loss = loss;
        }
        self.start_epoch();
        better
    }
}

/// The losses that were the best so far, from the first on: the best of `losses`, where
/// it starts at positive infinity and only a smaller number replaces it.
pub open spec fn best_of(losses: Seq<Double>) -> Double
    decreases losses.len(),
{
    if losses.len() == 0 {
        Double { bits: 0x7ff0_0000_0000_0000 }
    } else {
        let best = best_of(losses.drop_last());
        if losses.last().below(best) {
            losses.last()
        } else {
            best
        }
    }
}

/// No validation loss that is a number is smaller than the best one, and the best one is
/// the first of the smallest.
pub proof fn law_best_loss_is_the_first_of_the_smallest(losses: Seq<Double>)
    ensures
        !best_of(losses).nan(),
        forall|i: int|
            0 <= i < losses.len() && !(#[trigger] losses[i]).nan() ==> best_of(losses).at_most(losses[i]),
        best_of(losses) == (Double { bits: 0x7ff0_0000_0000_0000 }) || exists|i: int|
            0 <= i < losses.len() && #[trigger] losses[i] == best_of(losses) && forall|j: int|
                0 <= j < i && !(#[trigger] losses[j]).nan() ==> losses[i].below(losses[j]),
    decreases losses.len(),
{
    let top = Double { bits: 0x7ff0_0000_0000_0000 };
    if losses.len() == 0 {
    } else {
        let rest = losses.drop_last();
        law_best_loss_is_the_first_of_the_smallest(rest);
        assert forall|i: int| 0 <= i < losses.len() && !(#[trigger] losses[i]).nan() implies best_of(
            losses,
        ).at_most(losses[i]) by {
            if i < rest.len() {
                assert(rest[i] == losses[i]);
            }
        }
        if losses.last().below(best_of(rest)) {
            let i = losses.len() - 1;
            assert forall|j: int| 0 <= j < i && !(#[trigger] losses[j]).nan() implies losses[i].below(
                losses[j],
            ) by {
                assert(rest[j] == losses[j]);
            }
            assert(losses[i] == best_of(losses));
        } else if best_of(rest) != top {
            let i = choose|i: int|
                0 <= i < rest.len() && #[trigger] rest[i] == best_of(rest) && forall|j: int|
                    0 <= j < i && !(#[trigger] rest[j]).nan() ==> rest[i].below(rest[j]);
            assert(losses[i] == best_of(losses));
            assert forall|j: int| 0 <= j < i && !(#[trigger] losses[j]).nan() implies losses[i].below(
                losses[j],
            ) by {
                assert(rest[j] == losses[j]);
            }
        }
    }
}

/// An epoch trains on every batch, and on none twice.
pub proof fn law_every_epoch_trains_on_every_batch(trainer: Trainer, epoch: usize)
    requires
        trainer.wf(),
        trainer.is_due() matches Action::Train { batch: _, epoch: e, iteration: _ } && e == epoch,
    ensures
        ({
            let order = crate::shuffle::epoch_order(
                trainer.course().seed,
                trainer.course().batches,
                epoch as nat,
            );
            &&& order.len() == trainer.course().batches
            &&& order.no_duplicates()
            &&& forall|batch: int|
                0 <= batch < trainer.course().batches ==> #[trigger] crate::order::lists(order, batch)
        }),
{
    crate::shuffle::lemma_shuffled_places(trainer.batches as nat, trainer.order@);
}

/// Validation scores every batch, and none twice.
pub proof fn law_validation_scores_every_batch(trainer: Trainer)
    requires
        trainer.wf(),
    ensures
        trainer.validates_in().len() == trainer.course().valid_batches,
        trainer.validates_in().no_duplicates(),
        forall|batch: int|
            0 <= batch < trainer.course().valid_batches ==> #[trigger] crate::order::lists(
                trainer.validates_in(),
                batch,
            ),
{
    crate::shuffle::lemma_shuffled_places(trainer.valid_order@.len(), trainer.valid_order@);
}

/// With as many batches to validate with as to train on, the first epoch trains in the
/// order in which validation goes.
pub proof fn law_first_epoch_goes_as_validation_does(trainer: Trainer, batch: usize, iteration: usize)
    requires
        trainer.wf(),
        trainer.course().batches == trainer.course().valid_batches,
        trainer.is_due() == (Action::Train { batch, epoch: 1, iteration }),
    ensures
        batch == trainer.validates_in()[iteration - 1],
{
}

/// The steps that a run has taken when `action` is due.
pub open spec fn taken(course: Course, action: Action) -> int {
    match action {
        Action::Train { batch, epoch, iteration } => (epoch - 1) * course.batches + iteration - 1,
        Action::Validate { epoch } => epoch * course.batches,
        Action::Finish { interrupted } => (course.epochs * course.batches) as int,
    }
}

/// Whether `action` can be due in a run.
pub open spec fn in_course(course: Course, action: Action) -> bool {
    match action {
        Action::Train { batch, epoch, iteration } => 1 <= epoch <= course.epochs && 1 <= iteration
            <= course.batches,
        Action::Validate { epoch } => 1 <= epoch <= course.epochs,
        Action::Finish { interrupted } => true,
    }
}

/// How much of a run is left when `action` is due: its steps and its validations.
pub open spec fn left(course: Course, action: Action) -> int {
    match action {
        Action::Train { batch, epoch, iteration } => (course.epochs - epoch) * (course.batches + 1) + (
        course.batches - iteration) + 2,
        Action::Validate { epoch } => (course.epochs - epoch) * (course.batches + 1) + 1,
        Action::Finish { interrupted } => 0,
    }
}

/// A run that is not stopped takes one step after the other, `epochs * batches` of them
/// in all, with a validation after each epoch, and then it is over.
pub proof fn law_course_of_a_run(course: Course, action: Action)
    requires
        in_course(course, action),
        course.epochs <= usize::MAX,
        course.batches <= usize::MAX,
    ensures
        in_course(course, epoch_start(course, 1)),
        left(course, epoch_start(course, 1)) == course.epochs * (course.batches + 1),
        taken(course, epoch_start(course, 1)) == 0,
        in_course(course, following(course, action, false)),
        !(action is Finish) ==> left(course, following(course, action, false)) == left(course, action) - 1,
        action is Train ==> {
            &&& taken(course, following(course, action, false)) == taken(course, action) + 1
            &&& 0 <= taken(course, action) < course.epochs * course.batches
            &&& following(course, action, true) == (Action::Finish { interrupted: true })
        },
        action is Validate ==> taken(course, following(course, action, false)) == taken(course, action),
{
    let n = course.batches as int;
    let e = course.epochs as int;
    assert((e - 1) * (n + 1) + n + 1 == e * (n + 1)) by (nonlinear_arith);
    assert(e == 0 ==> e * (n + 1) == 0 && e * n == 0) by (nonlinear_arith);
    assert((1usize - 1) * n == 0 && 1usize * n == n) by (nonlinear_arith);
    match action {
        Action::Train { batch, epoch, iteration } => {
            let k = epoch as int;
            assert((k - 1) * n + n == k * n) by (nonlinear_arith);
            assert(0 <= (k - 1) * n) by (nonlinear_arith)
                requires
                    k >= 1,
                    n >= 0,
            ;
            assert(k * n <= e * n) by (nonlinear_arith)
                requires
                    k <= e,
                    n >= 0,
            ;
        },
        Action::Validate { epoch } => {
            let k = epoch as int;
            if k < e {
                let next = (k + 1) as usize;
                assert((next - 1) * n == k * n && (n == 0 ==> next * n == k * n)) by (nonlinear_arith)
                    requires
                        next == k + 1,
                ;
                assert((e - k) * (n + 1) == (e - next) * (n + 1) + n + 1) by (nonlinear_arith)
                    requires
                        next == k + 1,
                ;
            } else {
                assert((e - k) * (n + 1) == 0) by (nonlinear_arith)
                    requires
                        e == k,
                ;
            }
        },
        Action::Finish { interrupted } => {},
    }
}

/// On batches cut from `total_size` items, a run takes no more steps than the learning
/// rate falls for, so that the rate never restarts.
pub proof fn law_learning_rate_never_restarts(
    config: crate::train::TrainingConfig,
    total_size: nat,
    step: int,
)
    requires
        config.batch_size > 0,
        0 <= step < config.num_epochs * crate::batch::chunk_count(total_size, config.batch_size as nat),
    ensures
        step < config.iterations_for(total_size as int),
        crate::schedule::phase_of(step, config.iterations_for(total_size as int))
            != crate::schedule::Phase::Restart,
{
    let size = config.batch_size as int;
    let n = total_size as int;
    let chunks = (n + size - 1) / size;
    let most = n / size + 1;
    let e = config.num_epochs as int;
    vstd::arithmetic::div_mod::lemma_div_is_ordered(n + size - 1, n + size, size);
    vstd::arithmetic::div_mod::lemma_div_plus_one(n, size);
    assert(chunks <= most);
    assert(e * chunks <= most * e) by (nonlinear_arith)
        requires
            chunks <= most,
            e >= 0,
    ;
    crate::schedule::law_first_restart(step, config.iterations_for(n));
}

/// What is due follows from what was done: after a step the next batch of the epoch, in the
/// order of the epoch, until all had their turn; then validation; then the first batch of
/// the next epoch; and after the last epoch nothing. Where a step says to stop, nothing more
/// is due.
pub proof fn law_what_is_due_next(course: Course, batch: usize, epoch: usize, iteration: usize)
    requires
        1 <= epoch <= course.epochs,
        1 <= iteration <= course.batches,
        course.epochs < usize::MAX,
        course.batches < usize::MAX,
    ensures
        ({
            let train = Action::Train { batch, epoch, iteration };
            let validate = Action::Validate { epoch };
            let order = crate::shuffle::epoch_order(course.seed, course.batches, epoch as nat);
            let later = crate::shuffle::epoch_order(
                course.seed,
                course.batches,
                (epoch + 1) as nat,
            );
            &&& following(course, train, true) == (Action::Finish { interrupted: true })
            &&& iteration < course.batches ==> following(course, train, false) == (Action::Train {
                batch: order[iteration as int],
                epoch,
                iteration: (iteration + 1) as usize,
            })
            &&& iteration == course.batches ==> following(course, train, false) == validate
            &&& epoch < course.epochs ==> following(course, validate, false) == (Action::Train {
                batch: later[0],
                epoch: (epoch + 1) as usize,
                iteration: 1,
            })
            &&& epoch == course.epochs ==> following(course, validate, false) == (Action::Finish {
                interrupted: false,
            })
        }),
{
}

} // verus!
