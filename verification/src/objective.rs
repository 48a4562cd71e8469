//! What a training run makes small: the loss of a batch with the penalties on the
//! parameters, and its gradient.
//!
//! The parts are the loss of the batch, the penalty for leaving the initial parameters, and
//! the penalty on schedules, which is shared out over all items. What each of them is and how
//! they are added is passed in.

use crate::batch::BatchHost;
use crate::double::Double;
use crate::parameters::clip_parameters;
use crate::single::Single;
use crate::train::TrainingRun;
use vstd::prelude::*;

verus! {

/// Whether `l2` may give this penalty and gradient for leaving the initial parameters: it
/// gets the parameters, the initial ones, the number of items in the batch and that of all.
pub open spec fn left_initial<X>(
    l2: X,
    run: TrainingRun,
    w: &Vec<Single>,
    batch: BatchHost,
    penalty: Double,
    grad: Vec<Single>,
) -> bool where X: Fn(&Vec<Single>, &Vec<Single>, usize, usize) -> (Double, Vec<Single>) {
    exists|first: &Vec<Single>| #[trigger]
        call_ensures(l2, (w, first, batch.real_batch_size, run.items.len()), (penalty, grad))
            && first@ == crate::parameters::clipped(run.initial_parameters@)
}

/// Whether `schedule` may give this penalty and gradient for the schedules that the
/// parameters lead to: it gets the parameters, the number of items in the batch, and whether
/// schedules are penalised.
pub open spec fn scheduled<Y>(
    schedule: Y,
    run: TrainingRun,
    w: &Vec<Single>,
    batch: BatchHost,
    penalty: Double,
    grad: Vec<Double>,
) -> bool where Y: Fn(&Vec<Single>, usize, bool) -> (Double, Vec<Double>) {
    call_ensures(
        schedule,
        (w, batch.real_batch_size, run.config.enable_sched_penalties),
        (penalty, grad),
    )
}

/// Whether `entry` may be entry `i` of the gradient of both penalties: that of the first,
/// with the share that `share` gives it of the second, where it has an entry too; 0 past the
/// end of the first.
pub open spec fn penalty_entry<H: Fn(Single, Double, usize) -> Single>(
    share: H,
    total: usize,
    first: Seq<Single>,
    second: Seq<Double>,
    i: int,
    entry: Single,
) -> bool {
    if i >= first.len() {
        entry == Single::zero()
    } else if i >= second.len() {
        entry == first[i]
    } else {
        call_ensures(share, (first[i], second[i], total), entry)
    }
}

/// Whether `gradient` may be made of the gradients of the penalties and of the loss: each
/// entry is what `sum` makes of that of the loss and that of the penalties.
pub open spec fn composed<H, T>(
    share: H,
    sum: T,
    total: usize,
    first: Seq<Single>,
    second: Seq<Double>,
    loss: Seq<Double>,
    entries: Seq<Single>,
    gradient: Seq<Single>,
) -> bool where H: Fn(Single, Double, usize) -> Single, T: Fn(Double, Single) -> Single {
    &&& entries.len() == gradient.len()
    &&& forall|i: int|
        0 <= i < gradient.len() ==> penalty_entry(
            share,
            total,
            first,
            second,
            i,
            #[trigger] entries[i],
        )
    &&& forall|i: int|
        0 <= i < gradient.len() ==> call_ensures(
            sum,
            (loss[i], entries[i]),
            #[trigger] gradient[i],
        )
}

/// Whether `gradient` may be the gradient of a step: made of the gradients of the loss of the
/// batch and of both penalties, with an entry for each parameter.
pub open spec fn step_graded<X, Y, L, H, T>(
    l2: X,
    schedule: Y,
    loss: L,
    share: H,
    sum: T,
    run: TrainingRun,
    w: &Vec<Single>,
    batch: BatchHost,
    gradient: Seq<Single>,
) -> bool where
    X: Fn(&Vec<Single>, &Vec<Single>, usize, usize) -> (Double, Vec<Single>),
    Y: Fn(&Vec<Single>, usize, bool) -> (Double, Vec<Double>),
    L: Fn(&Vec<Single>, &BatchHost) -> Vec<Double>,
    H: Fn(Single, Double, usize) -> Single,
    T: Fn(Double, Single) -> Single,
 {
    exists|
        a: Double,
        first: Vec<Single>,
        b: Double,
        second: Vec<Double>,
        graded: Vec<Double>,
        entries: Seq<Single>,
    |
        #![trigger left_initial(l2, run, w, batch, a, first), scheduled(schedule, run, w, batch, b, second), call_ensures(loss, (w, &batch), graded), composed(share, sum, run.items.len(), first@, second@, graded@, entries, gradient)]
        {
            &&& left_initial(l2, run, w, batch, a, first)
            &&& scheduled(schedule, run, w, batch, b, second)
            &&& call_ensures(loss, (w, &batch), graded)
            &&& gradient.len() == w@.len()
            &&& composed(
                share,
                sum,
                run.items.len(),
                first@,
                second@,
                graded@,
                entries,
                gradient,
            )
        }
}

/// The gradient of a step, before anything is frozen.
///
/// `l2` gives the penalty for leaving the initial parameters, which are clipped, and its
/// gradient; `schedule` gives that on schedules; `loss` gives the gradient of the loss of the
/// batch, with an entry for each parameter. `share` adds to an entry of the first that of the
/// second, shared out over all items; `sum` adds both to that of the loss.
pub fn step_gradient<X, Y, L, H, T>(
    run: &TrainingRun,
    w: &Vec<Single>,
    batch: &BatchHost,
    l2: &X,
    schedule: &Y,
    loss: &L,
    share: &H,
    sum: &T,
) -> (r: Vec<Single>) where
    X: Fn(&Vec<Single>, &Vec<Single>, usize, usize) -> (Double, Vec<Single>),
    Y: Fn(&Vec<Single>, usize, bool) -> (Double, Vec<Double>),
    L: Fn(&Vec<Single>, &BatchHost) -> Vec<Double>,
    H: Fn(Single, Double, usize) -> Single,
    T: Fn(Double, Single) -> Single,

    requires
        forall|first: &Vec<Single>|
            first@ == crate::parameters::clipped(run.initial_parameters@)
                ==> #[trigger] call_requires(
                *l2,
                (w, first, batch.real_batch_size, run.items.len()),
            ),
        call_requires(
            *schedule,
            (w, batch.real_batch_size, run.config.enable_sched_penalties),
        ),
        call_requires(*loss, (w, batch)),
        forall|graded: Vec<Double>| #[trigger]
            call_ensures(*loss, (w, batch), graded) ==> graded@.len() >= w@.len(),
        forall|a: Single, b: Double, n: usize| #[trigger] call_requires(*share, (a, b, n)),
        forall|a: Double, b: Single| #[trigger] call_requires(*sum, (a, b)),
    ensures
        step_graded(*l2, *schedule, *loss, *share, *sum, *run, w, *batch, r@),
{
    let initial = clip_parameters(&run.initial_parameters);
    let total: usize = run.items.len();
    let (a, first) = l2(w, &initial, batch.real_batch_size, total);
    let (b, second) = schedule(w, batch.real_batch_size, run.config.enable_sched_penalties);
    let graded = loss(w, batch);
    proof {
        assert(call_ensures(
            *l2,
            (w, &initial, batch.real_batch_size, run.items.len()),
            (a, first),
        ));
        assert(left_initial(*l2, *run, w, *batch, a, first));
        assert(scheduled(*schedule, *run, w, *batch, b, second));
        assert(call_ensures(*loss, (w, batch), graded));
    }
    let mut r: Vec<Single> = Vec::with_capacity(w.len());
    let ghost mut entries: Seq<Single> = Seq::empty();
    let mut i: usize = 0;
    while i < w.len()
        invariant
            i <= w@.len() <= graded@.len(),
            total == run.items.len(),
            forall|a: Single, b: Double, n: usize| #[trigger] call_requires(*share, (a, b, n)),
            forall|a: Double, b: Single| #[trigger] call_requires(*sum, (a, b)),
            r@.len() == i,
            composed(*share, *sum, total, first@, second@, graded@, entries, r@),
        decreases w@.len() - i,
    {
        let entry = if i >= first.len() {
            Single::zero()
        } else if i >= second.len() {
            first[i]
        } else {
            share(first[i], second[i], total)
        };
        let one = sum(graded[i], entry);
        proof {
            entries = entries.push(entry);
        }
        r.push(one);
        i += 1;
    }
    r
}

/// Whether `r` may be the loss of a batch with the penalties: what `join` makes of the loss
/// of the batch, both penalties, and the number of all items.
pub open spec fn objective_of<X, Y, L, J>(
    l2: X,
    schedule: Y,
    loss: L,
    join: J,
    run: TrainingRun,
    w: &Vec<Single>,
    batch: BatchHost,
    r: Double,
) -> bool where
    X: Fn(&Vec<Single>, &Vec<Single>, usize, usize) -> (Double, Vec<Single>),
    Y: Fn(&Vec<Single>, usize, bool) -> (Double, Vec<Double>),
    L: Fn(&Vec<Single>, &BatchHost) -> Double,
    J: Fn(Double, Double, Double, usize) -> Double,
 {
    exists|
        a: Double,
        first: Vec<Single>,
        b: Double,
        second: Vec<Double>,
        lost: Double,
    |
        #![trigger left_initial(l2, run, w, batch, a, first), scheduled(schedule, run, w, batch, b, second), call_ensures(loss, (w, &batch), lost)]
        {
            &&& left_initial(l2, run, w, batch, a, first)
            &&& scheduled(schedule, run, w, batch, b, second)
            &&& call_ensures(loss, (w, &batch), lost)
            &&& call_ensures(join, (lost, a, b, run.items.len()), r)
        }
}

/// The loss of a batch with the penalties, by which parameters are validated.
///
/// `l2` and `schedule` are what they are for `step_gradient`, and `loss` gives the loss of
/// the batch. `join` adds the penalty for leaving the initial parameters, and that on
/// schedules, shared out over all items.
pub fn objective<X, Y, L, J>(
    run: &TrainingRun,
    w: &Vec<Single>,
    batch: &BatchHost,
    l2: &X,
    schedule: &Y,
    loss: &L,
    join: &J,
) -> (r: Double) where
    X: Fn(&Vec<Single>, &Vec<Single>, usize, usize) -> (Double, Vec<Single>),
    Y: Fn(&Vec<Single>, usize, bool) -> (Double, Vec<Double>),
    L: Fn(&Vec<Single>, &BatchHost) -> Double,
    J: Fn(Double, Double, Double, usize) -> Double,

    requires
        forall|first: &Vec<Single>|
            first@ == crate::parameters::clipped(run.initial_parameters@)
                ==> #[trigger] call_requires(
                *l2,
                (w, first, batch.real_batch_size, run.items.len()),
            ),
        call_requires(
            *schedule,
            (w, batch.real_batch_size, run.config.enable_sched_penalties),
        ),
        call_requires(*loss, (w, batch)),
        forall|a: Double, b: Double, c: Double, n: usize| #[trigger]
            call_requires(*join, (a, b, c, n)),
    ensures
        objective_of(*l2, *schedule, *loss, *join, *run, w, *batch, r),
{
    let initial = clip_parameters(&run.initial_parameters);
    let total: usize = run.items.len();
    let (a, first) = l2(w, &initial, batch.real_batch_size, total);
    let (b, second) = schedule(w, batch.real_batch_size, run.config.enable_sched_penalties);
    let lost = loss(w, batch);
    let r = join(lost, a, b, total);
    proof {
        assert(call_ensures(
            *l2,
            (w, &initial, batch.real_batch_size, run.items.len()),
            (a, first),
        ));
        assert(left_initial(*l2, *run, w, *batch, a, first));
        assert(scheduled(*schedule, *run, w, *batch, b, second));
        assert(call_ensures(*loss, (w, batch), lost));
    }
    r
}

/// Each entry of a step's gradient has the three parts that belong to its parameter, where
/// all three have one: that of the loss, that of the penalty for leaving the initial
/// parameters, and the share of that on schedules over all items. A part that is missing is
/// left out.
pub proof fn law_entries_have_three_parts<H, T>(
    share: H,
    sum: T,
    total: usize,
    first: Seq<Single>,
    second: Seq<Double>,
    loss: Seq<Double>,
    entries: Seq<Single>,
    gradient: Seq<Single>,
    i: int,
) where H: Fn(Single, Double, usize) -> Single, T: Fn(Double, Single) -> Single
    requires
        composed(share, sum, total, first, second, loss, entries, gradient),
        0 <= i < gradient.len(),
    ensures
        call_ensures(sum, (loss[i], entries[i]), gradient[i]),
        i < first.len() && i < second.len() ==> call_ensures(
            share,
            (first[i], second[i], total),
            entries[i],
        ),
        i < first.len() && i >= second.len() ==> entries[i] == first[i],
        i >= first.len() ==> entries[i] == Single::zero(),
{
    assert(penalty_entry(share, total, first, second, i, entries[i]));
}

/// The penalty for leaving the initial parameters is asked for with those parameters clipped,
/// the number of items in the batch, and the number of all items that are trained on; that
/// on schedules with the number of items in the batch, and whether it is wanted.
pub proof fn law_what_penalties_are_asked_for<X, Y>(
    l2: X,
    schedule: Y,
    run: TrainingRun,
    w: &Vec<Single>,
    batch: BatchHost,
    penalty: Double,
    grad: Vec<Single>,
    wide: Vec<Double>,
) where
    X: Fn(&Vec<Single>, &Vec<Single>, usize, usize) -> (Double, Vec<Single>),
    Y: Fn(&Vec<Single>, usize, bool) -> (Double, Vec<Double>),

    ensures
        left_initial(l2, run, w, batch, penalty, grad) ==> exists|first: &Vec<Single>| #[trigger]
            call_ensures(
                l2,
                (w, first, batch.real_batch_size, run.items.len()),
                (penalty, grad),
            ) && first@ == crate::parameters::clipped(run.initial_parameters@),
        scheduled(schedule, run, w, batch, penalty, wide) ==> call_ensures(
            schedule,
            (w, batch.real_batch_size, run.config.enable_sched_penalties),
            (penalty, wide),
        ),
{
}

} // verus!
