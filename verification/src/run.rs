//! A training run from its first step to its last.

use crate::batch::{build_host_batches, BatchHost};
use crate::dataset::WeightedFSRSItem;
use crate::double::Double;
use crate::error::FSRSError;
use crate::model::parameters_to_model;
use crate::parameters::{clip_parameters, copied};
use crate::penalty::freeze;
use crate::review::FSRSReview;
use crate::schedule::{CosineAnnealingLR, Phase};
use crate::single::Single;
use crate::train::TrainingRun;
use crate::trainer::{Action, Course, Trainer};
use vstd::prelude::*;

verus! {

/// Whether `batches` are the batches of items: sorted by the number of their reviews and cut
/// into chunks of `size`.
pub open spec fn batches_of(
    items: Seq<(Single, Seq<FSRSReview>)>,
    size: nat,
    batches: Seq<BatchHost>,
) -> bool {
    &&& batches.len() == crate::batch::chunk_count(items.len(), size)
    &&& exists|sorted: Seq<(Single, Seq<FSRSReview>)>| #[trigger]
        crate::dataset::sorted_by_length(items, sorted) && forall|k: int|
            0 <= k < batches.len() ==> (#[trigger] batches[k]).holds(crate::batch::chunk(sorted, size, k))
}

/// Whether batches of `size` can be made of items: every item has a review, and the
/// batches can be indexed.
pub open spec fn batchable(items: Seq<(Single, Seq<FSRSReview>)>, size: nat) -> bool {
    &&& crate::batch::all_reviewed(items)
    &&& crate::batch::indexable(
        crate::batch::histories(items),
        if size < items.len() {
            size
        } else {
            items.len()
        },
    )
}

/// Whether a run can be done: its batches can be made, and its steps can be counted.
pub open spec fn can_run(run: TrainingRun) -> bool {
    let total = run.items@.len() as int;
    &&& run.config.batch_size > 0
    &&& batchable(crate::dataset::weighted(run.items@), run.config.batch_size as nat)
    &&& batchable(crate::dataset::weighted(run.test_items@), run.config.batch_size as nat)
    &&& total / run.config.batch_size as int + 1 <= usize::MAX
    &&& run.config.iterations_for(total) < crate::schedule::COUNTED
    &&& run.config.iterations_for(total) <= usize::MAX
}

/// Whether the learning rate of step `k` may come from `rate`: that of the first is the
/// initial one, and each other one is computed from the one before.
pub open spec fn rate_of_step<R: Fn(u64, Phase, u64, Double, Double) -> Double>(
    rate: R,
    initial: Double,
    t_max: int,
    rates: Seq<Double>,
    k: int,
) -> bool {
    if k == 0 {
        rates[k] == initial
    } else {
        call_ensures(
            rate,
            (
                t_max as u64,
                crate::schedule::phase_of(k, t_max),
                k as u64,
                initial,
                rates[k - 1],
            ),
            rates[k],
        )
    }
}

/// Whether the learning rates of the steps may come from `rate`.
pub open spec fn rated<R: Fn(u64, Phase, u64, Double, Double) -> Double>(
    rate: R,
    initial: Double,
    t_max: int,
    rates: Seq<Double>,
) -> bool {
    forall|k: int| 0 <= k < rates.len() ==> #[trigger] rate_of_step(rate, initial, t_max, rates, k)
}

/// The batch that step `k` of a run trains on.
pub open spec fn batch_of_step(seed: u64, n: nat, k: int) -> int {
    crate::shuffle::epoch_order(seed, n, (k / (n as int) + 1) as nat)[k % (n as int)] as int
}

/// Whether `optimize` may take state and parameters to `next` and `raw` by a gradient.
pub open spec fn optimized<S, O: Fn(S, &Vec<Single>, &Vec<Single>, Double) -> (S, Vec<Single>)>(
    optimize: O,
    state: S,
    w: &Vec<Single>,
    g: &Vec<Single>,
    lr: Double,
    next: S,
    raw: Vec<Single>,
) -> bool {
    call_ensures(optimize, (state, w, g, lr), (next, raw))
}

/// Whether one step may take `state` and the parameters `w` to `next` and `after`: the
/// gradient is computed, that by frozen parameters is taken away, the optimizer goes by
/// what is left, and the parameters that it gives are clipped.
pub open spec fn parameters_stepped<S, G, O>(
    gradient: G,
    optimize: O,
    run: TrainingRun,
    batch: BatchHost,
    lr: Double,
    state: S,
    w: Seq<Single>,
    next: S,
    after: Seq<Single>,
) -> bool where
    G: Fn(&TrainingRun, &Vec<Single>, &BatchHost) -> Vec<Single>,
    O: Fn(S, &Vec<Single>, &Vec<Single>, Double) -> (S, Vec<Single>),
 {
    let model = run.config.model;
    exists|p: &Vec<Single>, g: Vec<Single>, f: &Vec<Single>, raw: Vec<Single>|
        #![trigger call_ensures(gradient, (&run, p, &batch), g), optimized(optimize, state, p, f, lr, next, raw)]
        call_ensures(gradient, (&run, p, &batch), g) && optimized(
            optimize,
            state,
            p,
            f,
            lr,
            next,
            raw,
        ) && p@ == w && f@ == crate::penalty::frozen(
            g@,
            model.freeze_initial_stability,
            model.freeze_short_term_stability,
        ) && after == crate::parameters::clipped(raw@)
}

/// Whether these are parameters that a run may have on its way: as many as it starts from,
/// and as clipping leaves them.
pub open spec fn on_the_way(run: TrainingRun, w: Seq<Single>) -> bool {
    &&& w.len() == run.initial_parameters@.len()
    &&& crate::parameters::clipped(w) == w
}

/// Whether a step can be taken from parameters that a run has on its way: there is a
/// gradient by each of them, and the optimizer gives as many again.
pub open spec fn can_step<S, G, O>(run: TrainingRun, gradient: G, optimize: O) -> bool where
    G: Fn(&TrainingRun, &Vec<Single>, &BatchHost) -> Vec<Single>,
    O: Fn(S, &Vec<Single>, &Vec<Single>, Double) -> (S, Vec<Single>),
 {
    &&& forall|w: &Vec<Single>, batch: &BatchHost|
        on_the_way(run, w@) ==> #[trigger] call_requires(gradient, (&run, w, batch))
    &&& forall|w: &Vec<Single>, batch: &BatchHost, g: Vec<Single>| #[trigger]
        call_ensures(gradient, (&run, w, batch), g) && on_the_way(run, w@) ==> g@.len() == w@.len()
    &&& forall|state: S, w: &Vec<Single>, g: &Vec<Single>, lr: Double|
        on_the_way(run, w@) && g@.len() == w@.len() ==> #[trigger] call_requires(
            optimize,
            (state, w, g, lr),
        )
    &&& forall|state: S, w: &Vec<Single>, g: &Vec<Single>, lr: Double, next: S, raw: Vec<Single>|
        #[trigger]
        optimized(optimize, state, w, g, lr, next, raw) && on_the_way(run, w@) ==> raw@.len()
            == w@.len()
}

/// Takes one step: computes the gradient of a batch, takes that by frozen parameters away,
/// has the optimizer go by what is left, and clips the parameters that it gives.
pub fn step_parameters<S, G, O>(
    run: &TrainingRun,
    batch: &BatchHost,
    lr: Double,
    state: S,
    w: &Vec<Single>,
    gradient: &G,
    optimize: &O,
) -> (r: (S, Vec<Single>)) where
    G: Fn(&TrainingRun, &Vec<Single>, &BatchHost) -> Vec<Single>,
    O: Fn(S, &Vec<Single>, &Vec<Single>, Double) -> (S, Vec<Single>),

    requires
        can_step(*run, *gradient, *optimize),
        on_the_way(*run, w@),
    ensures
        parameters_stepped(*gradient, *optimize, *run, *batch, lr, state, w@, r.0, r.1@),
        on_the_way(*run, r.1@),
        w@.len() >= 34 ==> crate::parameters::in_ranges(r.1@),
{
    let model = &run.config.model;
    let mut grad = gradient(run, w, batch);
    let ghost g = grad;
    freeze(&mut grad, model.freeze_initial_stability, model.freeze_short_term_stability);
    let (next, raw) = optimize(state, w, &grad, lr);
    let r = (next, clip_parameters(&raw));
    proof {
        assert(call_ensures(*gradient, (run, w, batch), g));
        assert(optimized(*optimize, state, w, &grad, lr, r.0, raw));
        crate::parameters::law_clipping_twice_is_clipping_once(raw@);
        if raw@.len() >= 34 {
            crate::parameters::law_clipped_parameters_are_in_range(raw@);
        }
    }
    r
}

/// Whether step `k` may take `state` and the parameters `w` to `next` and `after`.
pub open spec fn taken_step<S, G, O>(
    gradient: G,
    optimize: O,
    run: TrainingRun,
    batches: Seq<BatchHost>,
    rates: Seq<Double>,
    k: int,
    state: S,
    w: Seq<Single>,
    next: S,
    after: Seq<Single>,
) -> bool where
    G: Fn(&TrainingRun, &Vec<Single>, &BatchHost) -> Vec<Single>,
    O: Fn(S, &Vec<Single>, &Vec<Single>, Double) -> (S, Vec<Single>),
 {
    let batch = batch_of_step(run.config.seed, batches.len(), k);
    0 <= batch < batches.len() && parameters_stepped(
        gradient,
        optimize,
        run,
        batches[batch],
        rates[k],
        state,
        w,
        next,
        after,
    )
}

/// Whether `states` and `ws` are the states of the optimizer and the parameters that the
/// steps of a run may lead to, one after the other.
pub open spec fn stepped<S, G, O>(
    gradient: G,
    optimize: O,
    run: TrainingRun,
    batches: Seq<BatchHost>,
    rates: Seq<Double>,
    states: Seq<S>,
    ws: Seq<Seq<Single>>,
) -> bool where
    G: Fn(&TrainingRun, &Vec<Single>, &BatchHost) -> Vec<Single>,
    O: Fn(S, &Vec<Single>, &Vec<Single>, Double) -> (S, Vec<Single>),
 {
    forall|k: int|
        0 <= k < ws.len() - 1 ==> #[trigger] taken_step(
            gradient,
            optimize,
            run,
            batches,
            rates,
            k,
            states[k],
            ws[k],
            states[k + 1],
            ws[k + 1],
        )
}

/// Whether `report` may say, of step `k` of a run with `n` batches, that the run is to
/// stop, or that it is not. Epochs and the steps in them count from 1.
pub open spec fn reported<N: Fn(&TrainingRun, usize, usize, usize) -> bool>(
    report: N,
    run: TrainingRun,
    n: int,
    k: int,
    stop: bool,
) -> bool {
    call_ensures(
        report,
        (&run, (k / n + 1) as usize, (k % n + 1) as usize, n as usize),
        stop,
    )
}

/// Whether `report` may let a run go on after each of its first `count` steps.
pub open spec fn went_on<N: Fn(&TrainingRun, usize, usize, usize) -> bool>(
    report: N,
    run: TrainingRun,
    n: int,
    count: int,
) -> bool {
    forall|k: int| 0 <= k < count ==> #[trigger] reported(report, run, n, k, false)
}

/// Whether the loss of the batch in place `i` of `order` may be what `score` gives.
pub open spec fn score_of_batch<E: Fn(&TrainingRun, &Vec<Single>, &BatchHost) -> Double>(
    score: E,
    run: TrainingRun,
    w: &Vec<Single>,
    batches: Seq<BatchHost>,
    order: Seq<usize>,
    losses: Seq<Double>,
    i: int,
) -> bool {
    &&& 0 <= order[i] < batches.len()
    &&& call_ensures(score, (&run, w, &batches[order[i] as int]), losses[i])
}

/// Whether the batches, in the order given, may have these losses, and those add up to
/// `sum`.
pub open spec fn added_up<E, P>(
    score: E,
    plus: P,
    run: TrainingRun,
    w: &Vec<Single>,
    batches: Seq<BatchHost>,
    order: Seq<usize>,
    losses: Seq<Double>,
    sum: Double,
) -> bool where
    E: Fn(&TrainingRun, &Vec<Single>, &BatchHost) -> Double,
    P: Fn(Double, Double) -> Double,
 {
    &&& losses.len() == order.len()
    &&& forall|i: int|
        0 <= i < losses.len() ==> #[trigger] score_of_batch(
            score,
            run,
            w,
            batches,
            order,
            losses,
            i,
        )
    &&& crate::losses::summed(plus, Double { bits: 0 }, losses, sum)
}

/// Whether `loss` may be the validation loss of the parameters `w`: what `mean` makes of the
/// losses of the batches, added up in the order given.
pub open spec fn loss_of<E, P, D>(
    score: E,
    plus: P,
    mean: D,
    run: TrainingRun,
    w: &Vec<Single>,
    batches: Seq<BatchHost>,
    order: Seq<usize>,
    loss: Double,
) -> bool where
    E: Fn(&TrainingRun, &Vec<Single>, &BatchHost) -> Double,
    P: Fn(Double, Double) -> Double,
    D: Fn(&TrainingRun, Double) -> Double,
 {
    exists|losses: Seq<Double>, sum: Double| #[trigger]
        added_up(score, plus, run, w, batches, order, losses, sum) && call_ensures(
            mean,
            (&run, sum),
            loss,
        )
}

/// Whether the score of an epoch may be the validation loss of the parameters `w` after it,
/// with those parameters.
pub open spec fn score_of_epoch<E, P, D>(
    score: E,
    plus: P,
    mean: D,
    run: TrainingRun,
    batches: Seq<BatchHost>,
    order: Seq<usize>,
    w: Seq<Single>,
    scored: (Double, Seq<Single>),
) -> bool where
    E: Fn(&TrainingRun, &Vec<Single>, &BatchHost) -> Double,
    P: Fn(Double, Double) -> Double,
    D: Fn(&TrainingRun, Double) -> Double,
 {
    scored.1 == w && exists|p: &Vec<Single>| #[trigger]
        loss_of(score, plus, mean, run, p, batches, order, scored.0) && p@ == w
}

/// Whether `scores` may be the validation losses of the parameters after each epoch of `n`
/// steps, with those parameters.
pub open spec fn scored<E, P, D>(
    score: E,
    plus: P,
    mean: D,
    run: TrainingRun,
    batches: Seq<BatchHost>,
    order: Seq<usize>,
    n: int,
    ws: Seq<Seq<Single>>,
    scores: Seq<(Double, Seq<Single>)>,
) -> bool where
    E: Fn(&TrainingRun, &Vec<Single>, &BatchHost) -> Double,
    P: Fn(Double, Double) -> Double,
    D: Fn(&TrainingRun, Double) -> Double,
 {
    forall|e: int|
        0 <= e < scores.len() ==> #[trigger] score_of_epoch(
            score,
            plus,
            mean,
            run,
            batches,
            order,
            ws[(e + 1) * n],
            scores[e],
        )
}

/// Whether every place in `order` is that of a batch.
pub open spec fn orders_batches(batches: Seq<BatchHost>, order: Seq<usize>) -> bool {
    forall|i: int| 0 <= i < order.len() ==> #[trigger] order[i] < batches.len()
}

/// Whether the loss of parameters that a run has on its way can be computed.
pub open spec fn can_validate<E, P, D>(run: TrainingRun, score: E, plus: P, mean: D) -> bool where
    E: Fn(&TrainingRun, &Vec<Single>, &BatchHost) -> Double,
    P: Fn(Double, Double) -> Double,
    D: Fn(&TrainingRun, Double) -> Double,
 {
    &&& forall|w: &Vec<Single>, batch: &BatchHost|
        on_the_way(run, w@) ==> #[trigger] call_requires(score, (&run, w, batch))
    &&& forall|a: Double, b: Double| #[trigger] call_requires(plus, (a, b))
    &&& forall|sum: Double| #[trigger] call_requires(mean, (&run, sum))
}

/// The validation loss: what `mean` makes of the losses of the batches, added up in the
/// order given.
pub fn validation_loss<E, P, D>(
    run: &TrainingRun,
    w: &Vec<Single>,
    batches: &Vec<BatchHost>,
    order: &Vec<usize>,
    score: &E,
    plus: &P,
    mean: &D,
) -> (r: Double) where
    E: Fn(&TrainingRun, &Vec<Single>, &BatchHost) -> Double,
    P: Fn(Double, Double) -> Double,
    D: Fn(&TrainingRun, Double) -> Double,

    requires
        orders_batches(batches@, order@),
        on_the_way(*run, w@),
        can_validate(*run, *score, *plus, *mean),
    ensures
        loss_of(*score, *plus, *mean, *run, w, batches@, order@, r),
{
    let mut sum = Double::from_bits(0);
    let ghost mut losses: Seq<Double> = Seq::empty();
    let mut i: usize = 0;
    proof {
        crate::losses::lemma_no_terms::<Double, Double, P>(*plus, sum);
    }
    while i < order.len()
        invariant
            i <= order@.len(),
            orders_batches(batches@, order@),
            on_the_way(*run, w@),
            can_validate(*run, *score, *plus, *mean),
            losses.len() == i,
            forall|j: int|
                0 <= j < i ==> #[trigger] score_of_batch(
                    *score,
                    *run,
                    w,
                    batches@,
                    order@,
                    losses,
                    j,
                ),
            crate::losses::summed(*plus, Double { bits: 0 }, losses, sum),
        decreases order@.len() - i,
    {
        let loss = score(run, w, &batches[order[i]]);
        let ghost before = sum;
        let ghost earlier = losses;
        sum = plus(sum, loss);
        proof {
            crate::losses::lemma_one_more(*plus, Double { bits: 0 }, losses, before, loss, sum);
            losses = losses.push(loss);
            assert forall|j: int| 0 <= j < i + 1 implies #[trigger] score_of_batch(
                *score,
                *run,
                w,
                batches@,
                order@,
                losses,
                j,
            ) by {
                if j < i {
                    assert(score_of_batch(*score, *run, w, batches@, order@, earlier, j));
                }
            }
        }
        i += 1;
    }
    let r = mean(run, sum);
    assert(added_up(*score, *plus, *run, w, batches@, order@, losses, sum));
    r
}

/// The result of a run: what the epoch with the best validation loss gave, or `initial`
/// where no epoch has one.
pub open spec fn best_result<P>(initial: P, scores: Seq<(Double, P)>) -> P
    decreases scores.len(),
{
    if scores.len() == 0 {
        initial
    } else {
        let before = scores.drop_last();
        let losses = before.map_values(|score: (Double, P)| score.0);
        if scores.last().0.below(crate::trainer::best_of(losses)) {
            scores.last().1
        } else {
            best_result(initial, before)
        }
    }
}

/// Whether a run may go this way: the batches that it trains on and those that it validates
/// with, the learning rates of its steps, the states of the optimizer and the parameters
/// that the steps lead to, and the scores of the parameters after its epochs. It starts from
/// its initial parameters, clipped.
pub open spec fn ran<S, R, G, O, E, P, D>(
    run: TrainingRun,
    start: S,
    rate: R,
    gradient: G,
    optimize: O,
    score: E,
    plus: P,
    mean: D,
    batches: Seq<BatchHost>,
    valid: Seq<BatchHost>,
    rates: Seq<Double>,
    states: Seq<S>,
    ws: Seq<Seq<Single>>,
    scores: Seq<(Double, Seq<Single>)>,
) -> bool where
    R: Fn(u64, Phase, u64, Double, Double) -> Double,
    G: Fn(&TrainingRun, &Vec<Single>, &BatchHost) -> Vec<Single>,
    O: Fn(S, &Vec<Single>, &Vec<Single>, Double) -> (S, Vec<Single>),
    E: Fn(&TrainingRun, &Vec<Single>, &BatchHost) -> Double,
    P: Fn(Double, Double) -> Double,
    D: Fn(&TrainingRun, Double) -> Double,
 {
    let size = run.config.batch_size as nat;
    &&& batches_of(crate::dataset::weighted(run.items@), size, batches)
    &&& batches_of(crate::dataset::weighted(run.test_items@), size, valid)
    &&& rated(
        rate,
        run.config.learning_rate,
        run.config.iterations_for(run.items@.len() as int),
        rates,
    )
    &&& states.len() == ws.len()
    &&& ws.len() == rates.len() + 1
    &&& states[0] == start
    &&& ws[0] == crate::parameters::clipped(run.initial_parameters@)
    &&& stepped(gradient, optimize, run, batches, rates, states, ws)
    &&& scored(
        score,
        plus,
        mean,
        run,
        valid,
        crate::shuffle::epoch_order(run.config.seed, valid.len(), 1),
        batches.len() as int,
        ws,
        scores,
    )
}

/// Whether a run of `n` batches that led to the parameters `ws` and to `scores` ends with
/// `r`: with the parameters after the best epoch, or, where `report` said to stop after the
/// last step, with an error.
pub open spec fn ended<N: Fn(&TrainingRun, usize, usize, usize) -> bool>(
    run: TrainingRun,
    report: N,
    n: int,
    ws: Seq<Seq<Single>>,
    scores: Seq<(Double, Seq<Single>)>,
    r: Result<Seq<Single>, FSRSError>,
) -> bool {
    match r {
        Ok(result) => {
            &&& ws.len() == run.config.num_epochs * n + 1
            &&& scores.len() == run.config.num_epochs
            &&& went_on(report, run, n, ws.len() - 1)
            &&& result == best_result(
                crate::parameters::clipped(run.initial_parameters@),
                scores,
            )
        },
        Err(e) => {
            &&& e == FSRSError::Interrupted
            &&& 2 <= ws.len() <= run.config.num_epochs * n + 1
            &&& went_on(report, run, n, ws.len() - 2)
            &&& reported(report, run, n, ws.len() - 2, true)
        },
    }
}

/// The parameters of a result, or its error.
pub open spec fn outcome(r: Result<Vec<Single>, FSRSError>) -> Result<Seq<Single>, FSRSError> {
    match r {
        Ok(p) => Ok(p@),
        Err(e) => Err(e),
    }
}

/// Whether a run may end with `r`.
pub open spec fn trained<S, R, G, O, N, E, P, D>(
    run: TrainingRun,
    start: S,
    rate: R,
    gradient: G,
    optimize: O,
    report: N,
    score: E,
    plus: P,
    mean: D,
    r: Result<Seq<Single>, FSRSError>,
) -> bool where
    R: Fn(u64, Phase, u64, Double, Double) -> Double,
    G: Fn(&TrainingRun, &Vec<Single>, &BatchHost) -> Vec<Single>,
    O: Fn(S, &Vec<Single>, &Vec<Single>, Double) -> (S, Vec<Single>),
    N: Fn(&TrainingRun, usize, usize, usize) -> bool,
    E: Fn(&TrainingRun, &Vec<Single>, &BatchHost) -> Double,
    P: Fn(Double, Double) -> Double,
    D: Fn(&TrainingRun, Double) -> Double,
 {
    exists|
        batches: Seq<BatchHost>,
        valid: Seq<BatchHost>,
        rates: Seq<Double>,
        states: Seq<S>,
        ws: Seq<Seq<Single>>,
        scores: Seq<(Double, Seq<Single>)>,
    | #[trigger]
        ran(
            run,
            start,
            rate,
            gradient,
            optimize,
            score,
            plus,
            mean,
            batches,
            valid,
            rates,
            states,
            ws,
            scores,
        ) && ended(run, report, batches.len() as int, ws, scores, r)
}

/// Whether the functions passed to a run can be called where it calls them.
pub open spec fn can_train<S, R, G, O, N, E, P, D>(
    run: TrainingRun,
    rate: R,
    gradient: G,
    optimize: O,
    report: N,
    score: E,
    plus: P,
    mean: D,
) -> bool where
    R: Fn(u64, Phase, u64, Double, Double) -> Double,
    G: Fn(&TrainingRun, &Vec<Single>, &BatchHost) -> Vec<Single>,
    O: Fn(S, &Vec<Single>, &Vec<Single>, Double) -> (S, Vec<Single>),
    N: Fn(&TrainingRun, usize, usize, usize) -> bool,
    E: Fn(&TrainingRun, &Vec<Single>, &BatchHost) -> Double,
    P: Fn(Double, Double) -> Double,
    D: Fn(&TrainingRun, Double) -> Double,
 {
    &&& forall|t_max: u64, phase: Phase, k: u64, init: Double, before: Double| #[trigger]
        call_requires(rate, (t_max, phase, k, init, before))
    &&& can_step::<S, G, O>(run, gradient, optimize)
    &&& forall|epoch: usize, iteration: usize, n: usize| #[trigger]
        call_requires(report, (&run, epoch, iteration, n))
    &&& can_validate(run, score, plus, mean)
}

/// Does a training run, from its initial parameters, clipped.
///
/// `rate` computes the learning rate of a step that is not the first. `gradient` computes
/// the gradient of a batch by the parameters. `optimize` takes the state of the optimizer,
/// which is `start` at first, and the parameters one step on, from a gradient in which that
/// by frozen parameters is 0, and the learning rate; what it gives is clipped. `report` is
/// told the epoch, the place in it and the number of batches after each step, and says
/// whether to stop. The loss of the parameters after an epoch is what `mean` makes of what
/// `score` gives for each of the batches to validate with, added up by `plus`.
///
/// The result is the parameters after the epoch with the first of the smallest losses, or
/// the first ones where no loss is below positive infinity.
pub fn train<S, R, G, O, N, E, P, D>(
    run: &TrainingRun,
    start: S,
    rate: &R,
    gradient: &G,
    optimize: &O,
    report: &N,
    score: &E,
    plus: &P,
    mean: &D,
) -> (r: Result<Vec<Single>, FSRSError>) where
    R: Fn(u64, Phase, u64, Double, Double) -> Double,
    G: Fn(&TrainingRun, &Vec<Single>, &BatchHost) -> Vec<Single>,
    O: Fn(S, &Vec<Single>, &Vec<Single>, Double) -> (S, Vec<Single>),
    N: Fn(&TrainingRun, usize, usize, usize) -> bool,
    E: Fn(&TrainingRun, &Vec<Single>, &BatchHost) -> Double,
    P: Fn(Double, Double) -> Double,
    D: Fn(&TrainingRun, Double) -> Double,

    requires
        can_run(*run),
        can_train::<S, R, G, O, N, E, P, D>(
            *run,
            *rate,
            *gradient,
            *optimize,
            *report,
            *score,
            *plus,
            *mean,
        ),
    ensures
        trained(
            *run,
            start,
            *rate,
            *gradient,
            *optimize,
            *report,
            *score,
            *plus,
            *mean,
            outcome(r),
        ),
        r matches Ok(p) ==> on_the_way(*run, p@),
        r matches Ok(p) ==> p@.len() >= 34 ==> crate::parameters::in_ranges(p@),
{
    let config = &run.config;
    let hosts = build_host_batches(clones(&run.items), config.batch_size);
    let valid = build_host_batches(clones(&run.test_items), config.batch_size);
    let n: usize = hosts.len();
    let t_max: usize = config.iterations(run.items.len());
    let mut schedule = CosineAnnealingLR::init(t_max as u64, config.learning_rate);
    let mut trainer = Trainer::new(config.seed, config.num_epochs, n, valid.len());
    let mut state = start;
    let mut w = parameters_to_model(&run.initial_parameters).w;
    let mut best = copied(&w);
    let ghost first = crate::parameters::clipped(run.initial_parameters@);
    let ghost course = trainer.course();
    let ghost mut rates: Seq<Double> = Seq::empty();
    let ghost mut states: Seq<S> = seq![start];
    let ghost mut ws: Seq<Seq<Single>> = seq![w@];
    let ghost mut scores: Seq<(Double, Seq<Single>)> = Seq::empty();
    proof {
        crate::trainer::law_course_of_a_run(course, Action::Finish { interrupted: false });
        lemma_most_steps(*run, n as int);
        lemma_clipping_keeps_the_number(run.initial_parameters@);
        assert(scores.map_values(|score: (Double, Seq<Single>)| score.0) =~= Seq::<Double>::empty());
        assert(config.num_epochs == 0 ==> config.num_epochs * n == 0) by (nonlinear_arith);
    }
    loop
        invariant
            can_run(*run),
            config == &run.config,
            batches_of(
                crate::dataset::weighted(run.items@),
                config.batch_size as nat,
                hosts@,
            ),
            batches_of(
                crate::dataset::weighted(run.test_items@),
                config.batch_size as nat,
                valid@,
            ),
            n == hosts@.len(),
            t_max == run.config.iterations_for(run.items@.len() as int),
            config.num_epochs * n < crate::schedule::COUNTED,
            can_train::<S, R, G, O, N, E, P, D>(
            *run,
            *rate,
            *gradient,
            *optimize,
            *report,
            *score,
            *plus,
            *mean,
        ),
            trainer.wf(),
            course == trainer.course(),
            course == (Course {
                seed: config.seed,
                epochs: config.num_epochs as nat,
                batches: n as nat,
                valid_batches: valid@.len(),
            }),
            trainer.validates_in() == crate::shuffle::epoch_order(config.seed, valid@.len(), 1),
            crate::trainer::in_course(course, trainer.is_due()),
            !(trainer.is_due() matches Action::Finish { interrupted } && interrupted),
            schedule.t_max == t_max,
            schedule.init_lr == config.learning_rate,
            schedule.steps == rates.len(),
            rates.len() > 0 ==> schedule.current_lr == rates.last(),
            rates.len() == 0 ==> schedule.current_lr == config.learning_rate,
            first == crate::parameters::clipped(run.initial_parameters@),
            states.len() == ws.len(),
            ws.len() == rates.len() + 1,
            states[0] == start,
            ws[0] == first,
            states.last() == state,
            ws.last() == w@,
            on_the_way(*run, w@),
            on_the_way(*run, best@),
            rates.len() == crate::trainer::taken(course, trainer.is_due()),
            rated(*rate, config.learning_rate, t_max as int, rates),
            stepped(*gradient, *optimize, *run, hosts@, rates, states, ws),
            went_on(*report, *run, n as int, rates.len() as int),
            scored(
                *score,
                *plus,
                *mean,
                *run,
                valid@,
                trainer.validates_in(),
                n as int,
                ws,
                scores,
            ),
            trainer.is_due() matches Action::Train { batch, epoch, iteration } ==> scores.len()
                == epoch - 1,
            trainer.is_due() matches Action::Validate { epoch } ==> scores.len() == epoch - 1,
            trainer.is_due() is Finish ==> scores.len() == config.num_epochs,
            trainer.best() == crate::trainer::best_of(
                scores.map_values(|score: (Double, Seq<Single>)| score.0),
            ),
            best@ == best_result(first, scores),
        decreases crate::trainer::left(course, trainer.is_due()),
    {
        let due = trainer.due();
        proof {
            crate::trainer::law_course_of_a_run(course, due);
        }
        match due {
            Action::Train { batch, epoch, iteration } => {
                let ghost k = rates.len() as int;
                proof {
                    lemma_place_of_step(k, n as int, epoch as int, iteration as int);
                }
                let lr = schedule.step(rate);
                let ghost earlier = rates;
                proof {
                    rates = rates.push(lr);
                    crate::trainer::law_learning_rate_never_restarts(run.config, run.items@.len(), k);
                    assert(rate_of_step(*rate, config.learning_rate, t_max as int, rates, k));
                    lemma_rate_added(*rate, config.learning_rate, t_max as int, earlier, lr);
                }
                let ghost before = state;
                let (next, after) = step_parameters(
                    run,
                    &hosts[batch],
                    lr,
                    state,
                    &w,
                    gradient,
                    optimize,
                );
                proof {
                    assert(taken_step(
                        *gradient,
                        *optimize,
                        *run,
                        hosts@,
                        rates,
                        k,
                        before,
                        w@,
                        next,
                        after@,
                    ));
                    lemma_step_added(
                        *gradient,
                        *optimize,
                        *run,
                        hosts@,
                        earlier,
                        lr,
                        states,
                        ws,
                        next,
                        after@,
                    );
                    lemma_scores_kept(
                        *score,
                        *plus,
                        *mean,
                        *run,
                        valid@,
                        trainer.validates_in(),
                        n as int,
                        ws,
                        after@,
                        scores,
                        epoch as int,
                        iteration as int,
                    );
                    states = states.push(next);
                    ws = ws.push(after@);
                }
                let stop = report(run, epoch, iteration, n);
                proof {
                    assert(reported(*report, *run, n as int, k, stop));
                }
                if stop {
                    let r: Result<Vec<Single>, FSRSError> = Err(FSRSError::Interrupted);
                    proof {
                        assert(ran(
                            *run,
                            start,
                            *rate,
                            *gradient,
                            *optimize,
                            *score,
                            *plus,
                            *mean,
                            hosts@,
                            valid@,
                            rates,
                            states,
                            ws,
                            scores,
                        ));
                        assert(ended(*run, *report, n as int, ws, scores, outcome(r)));
                    }
                    return r;
                }
                trainer.trained(false);
                state = next;
                w = after;
            },
            Action::Validate { epoch } => {
                let order = trainer.valid_order();
                let loss = validation_loss(run, &w, &valid, order, score, plus, mean);
                let ghost kept = (loss, w@);
                proof {
                    assert(ws[(scores.len() + 1) * (n as int)] == w@) by {
                        assert((scores.len() + 1) * (n as int) == epoch * n);
                    }
                    assert(kept.0 == loss);
                    assert(loss_of(
                        *score,
                        *plus,
                        *mean,
                        *run,
                        &w,
                        valid@,
                        trainer.validates_in(),
                        kept.0,
                    ));
                    assert(score_of_epoch(
                        *score,
                        *plus,
                        *mean,
                        *run,
                        valid@,
                        trainer.validates_in(),
                        w@,
                        kept,
                    ));
                    lemma_score_added(
                        *score,
                        *plus,
                        *mean,
                        *run,
                        valid@,
                        trainer.validates_in(),
                        n as int,
                        ws,
                        scores,
                        kept,
                    );
                    let losses = scores.map_values(|score: (Double, Seq<Single>)| score.0);
                    let more = scores.push(kept);
                    assert(more.drop_last() =~= scores);
                    assert(more.map_values(|score: (Double, Seq<Single>)| score.0) =~= losses.push(
                        loss,
                    ));
                    scores = more;
                }
                if trainer.validated(loss) {
                    best = copied(&w);
                }
            },
            Action::Finish { interrupted } => {
                let r: Result<Vec<Single>, FSRSError> = Ok(best);
                proof {
                    assert(ran(
                        *run,
                        start,
                        *rate,
                        *gradient,
                        *optimize,
                        *score,
                        *plus,
                        *mean,
                        hosts@,
                        valid@,
                        rates,
                        states,
                        ws,
                        scores,
                    ));
                    assert(ended(*run, *report, n as int, ws, scores, outcome(r)));
                    if best@.len() >= 34 {
                        crate::parameters::law_clipped_parameters_are_in_range(best@);
                    }
                }
                return r;
            },
        }
    }
}

/// The result of a run comes from the epoch with the first of the smallest validation
/// losses; where no loss is below positive infinity, it is `initial`.
pub proof fn law_result_comes_from_the_best_epoch<P>(initial: P, scores: Seq<(Double, P)>)
    ensures
        ({
            let losses = scores.map_values(|score: (Double, P)| score.0);
            let best = crate::trainer::best_of(losses);
            ||| best == (Double { bits: 0x7ff0_0000_0000_0000 }) && best_result(initial, scores)
                == initial
            ||| exists|e: int|
                0 <= e < scores.len() && (#[trigger] scores[e]).0 == best && best_result(
                    initial,
                    scores,
                ) == scores[e].1 && forall|j: int|
                    0 <= j < e && !(#[trigger] scores[j]).0.nan() ==> scores[e].0.below(scores[j].0)
        }),
    decreases scores.len(),
{
    let losses = scores.map_values(|score: (Double, P)| score.0);
    if scores.len() > 0 {
        let before = scores.drop_last();
        let earlier = before.map_values(|score: (Double, P)| score.0);
        assert(losses.drop_last() =~= earlier);
        assert(losses.last() == scores.last().0);
        law_result_comes_from_the_best_epoch(initial, before);
        if scores.last().0.below(crate::trainer::best_of(earlier)) {
            let e = scores.len() - 1;
            crate::trainer::law_best_loss_is_the_first_of_the_smallest(earlier);
            assert forall|j: int| 0 <= j < e && !(#[trigger] scores[j]).0.nan() implies scores[e].0.below(
                scores[j].0,
            ) by {
                assert(earlier[j] == scores[j].0);
            }
            assert(scores[e].0 == crate::trainer::best_of(losses));
        } else if !(crate::trainer::best_of(earlier) == (Double { bits: 0x7ff0_0000_0000_0000 })
            && best_result(initial, before) == initial) {
            let e = choose|e: int|
                0 <= e < before.len() && (#[trigger] before[e]).0 == crate::trainer::best_of(earlier)
                    && best_result(initial, before) == before[e].1 && forall|j: int|
                    0 <= j < e && !(#[trigger] before[j]).0.nan() ==> before[e].0.below(before[j].0);
            assert(scores[e] == before[e]);
            assert forall|j: int| 0 <= j < e && !(#[trigger] scores[j]).0.nan() implies scores[e].0.below(
                scores[j].0,
            ) by {
                assert(before[j] == scores[j]);
            }
        }
    }
}

/// The items again, in a vector of their own.
pub(crate) fn clones(items: &Vec<WeightedFSRSItem>) -> (r: Vec<WeightedFSRSItem>)
    ensures
        crate::dataset::weighted(r@) == crate::dataset::weighted(items@),
{
    let mut r: Vec<WeightedFSRSItem> = Vec::with_capacity(items.len());
    let mut i: usize = 0;
    while i < items.len()
        invariant
            i <= items@.len(),
            r@.len() == i,
            forall|j: int| 0 <= j < i ==> (#[trigger] r@[j])@ == items@[j]@,
        decreases items@.len() - i,
    {
        r.push(items[i].clone());
        i += 1;
    }
    assert(crate::dataset::weighted(r@) =~= crate::dataset::weighted(items@));
    r
}

proof fn lemma_most_steps(run: TrainingRun, n: int)
    requires
        can_run(run),
        n == crate::batch::chunk_count(run.items@.len(), run.config.batch_size as nat),
    ensures
        run.config.num_epochs * n < crate::schedule::COUNTED,
{
    let total = run.items@.len();
    let e = run.config.num_epochs as int;
    if e * n > 0 {
        crate::trainer::law_learning_rate_never_restarts(run.config, total, e * n - 1);
    }
}

proof fn lemma_place_of_step(k: int, n: int, epoch: int, iteration: int)
    requires
        1 <= epoch,
        1 <= iteration <= n,
        k == (epoch - 1) * n + iteration - 1,
    ensures
        k >= 0,
        k / n + 1 == epoch,
        k % n + 1 == iteration,
{
    vstd::arithmetic::mul::lemma_mul_is_commutative(epoch - 1, n);
    vstd::arithmetic::div_mod::lemma_fundamental_div_mod_converse(k, n, epoch - 1, iteration - 1);
    assert((epoch - 1) * n >= 0) by (nonlinear_arith)
        requires
            epoch >= 1,
            n >= 1,
    ;
}

proof fn lemma_clipping_keeps_the_number(p: Seq<Single>)
    ensures
        crate::parameters::clipped(p).len() == p.len(),
        crate::parameters::clipped(crate::parameters::clipped(p)) == crate::parameters::clipped(p),
{
    crate::parameters::law_clipping_twice_is_clipping_once(p);
    if p.len() >= 34 {
        crate::parameters::law_clipped_parameters_are_in_range(p);
    }
}

proof fn lemma_rate_added<R: Fn(u64, Phase, u64, Double, Double) -> Double>(
    rate: R,
    initial: Double,
    t_max: int,
    rates: Seq<Double>,
    lr: Double,
)
    requires
        rated(rate, initial, t_max, rates),
        rate_of_step(rate, initial, t_max, rates.push(lr), rates.len() as int),
    ensures
        rated(rate, initial, t_max, rates.push(lr)),
{
    let more = rates.push(lr);
    assert forall|k: int| 0 <= k < more.len() implies #[trigger] rate_of_step(
        rate,
        initial,
        t_max,
        more,
        k,
    ) by {
        if k < rates.len() {
            assert(rate_of_step(rate, initial, t_max, rates, k));
            assert(rates[k] == more[k]);
            if k > 0 {
                assert(rates[k - 1] == more[k - 1]);
            }
        }
    }
}

proof fn lemma_step_added<S, G, O>(
    gradient: G,
    optimize: O,
    run: TrainingRun,
    batches: Seq<BatchHost>,
    rates: Seq<Double>,
    lr: Double,
    states: Seq<S>,
    ws: Seq<Seq<Single>>,
    next: S,
    after: Seq<Single>,
) where
    G: Fn(&TrainingRun, &Vec<Single>, &BatchHost) -> Vec<Single>,
    O: Fn(S, &Vec<Single>, &Vec<Single>, Double) -> (S, Vec<Single>),

    requires
        states.len() == ws.len(),
        ws.len() == rates.len() + 1,
        stepped(gradient, optimize, run, batches, rates, states, ws),
        taken_step(
            gradient,
            optimize,
            run,
            batches,
            rates.push(lr),
            rates.len() as int,
            states.last(),
            ws.last(),
            next,
            after,
        ),
    ensures
        stepped(
            gradient,
            optimize,
            run,
            batches,
            rates.push(lr),
            states.push(next),
            ws.push(after),
        ),
{
    let rs = rates.push(lr);
    let ss = states.push(next);
    let ps = ws.push(after);
    assert forall|k: int| 0 <= k < ps.len() - 1 implies #[trigger] taken_step(
        gradient,
        optimize,
        run,
        batches,
        rs,
        k,
        ss[k],
        ps[k],
        ss[k + 1],
        ps[k + 1],
    ) by {
        assert(ss[k] == states[k] && ps[k] == ws[k]);
        if k < ws.len() - 1 {
            assert(taken_step(
                gradient,
                optimize,
                run,
                batches,
                rates,
                k,
                states[k],
                ws[k],
                states[k + 1],
                ws[k + 1],
            ));
            assert(ss[k + 1] == states[k + 1] && ps[k + 1] == ws[k + 1]);
            assert(rs[k] == rates[k]);
        }
    }
}

proof fn lemma_scores_kept<E, P, D>(
    score: E,
    plus: P,
    mean: D,
    run: TrainingRun,
    batches: Seq<BatchHost>,
    order: Seq<usize>,
    n: int,
    ws: Seq<Seq<Single>>,
    after: Seq<Single>,
    scores: Seq<(Double, Seq<Single>)>,
    epoch: int,
    iteration: int,
) where
    E: Fn(&TrainingRun, &Vec<Single>, &BatchHost) -> Double,
    P: Fn(Double, Double) -> Double,
    D: Fn(&TrainingRun, Double) -> Double,

    requires
        scored(score, plus, mean, run, batches, order, n, ws, scores),
        1 <= epoch,
        1 <= iteration <= n,
        scores.len() == epoch - 1,
        ws.len() - 1 == (epoch - 1) * n + iteration - 1,
    ensures
        scored(score, plus, mean, run, batches, order, n, ws.push(after), scores),
{
    let more = ws.push(after);
    assert forall|e: int| 0 <= e < scores.len() implies #[trigger] score_of_epoch(
        score,
        plus,
        mean,
        run,
        batches,
        order,
        more[(e + 1) * n],
        scores[e],
    ) by {
        assert(0 <= (e + 1) * n <= (epoch - 1) * n) by (nonlinear_arith)
            requires
                0 <= e < epoch - 1,
                n >= 1,
        ;
        assert(score_of_epoch(score, plus, mean, run, batches, order, ws[(e + 1) * n], scores[e]));
        assert(more[(e + 1) * n] == ws[(e + 1) * n]);
    }
}

proof fn lemma_score_added<E, P, D>(
    score: E,
    plus: P,
    mean: D,
    run: TrainingRun,
    batches: Seq<BatchHost>,
    order: Seq<usize>,
    n: int,
    ws: Seq<Seq<Single>>,
    scores: Seq<(Double, Seq<Single>)>,
    kept: (Double, Seq<Single>),
) where
    E: Fn(&TrainingRun, &Vec<Single>, &BatchHost) -> Double,
    P: Fn(Double, Double) -> Double,
    D: Fn(&TrainingRun, Double) -> Double,

    requires
        scored(score, plus, mean, run, batches, order, n, ws, scores),
        score_of_epoch(score, plus, mean, run, batches, order, ws[(scores.len() + 1) * n], kept),
    ensures
        scored(score, plus, mean, run, batches, order, n, ws, scores.push(kept)),
{
    let more = scores.push(kept);
    assert forall|e: int| 0 <= e < more.len() implies #[trigger] score_of_epoch(
        score,
        plus,
        mean,
        run,
        batches,
        order,
        ws[(e + 1) * n],
        more[e],
    ) by {
        if e < scores.len() {
            assert(score_of_epoch(score, plus, mean, run, batches, order, ws[(e + 1) * n], scores[e]));
        }
    }
}

/// The learning rates of a run: the first is the one that it is set to, and each other one is
/// what `rate` gives for the number of steps in which the rate falls, the phase and the number
/// of the step, the first rate and the one before.
pub proof fn law_rates_follow_the_schedule<R: Fn(u64, Phase, u64, Double, Double) -> Double>(
    rate: R,
    initial: Double,
    t_max: int,
    rates: Seq<Double>,
    k: int,
)
    requires
        rated(rate, initial, t_max, rates),
        0 <= k < rates.len(),
    ensures
        k == 0 ==> rates[k] == initial,
        k > 0 ==> call_ensures(
            rate,
            (
                t_max as u64,
                crate::schedule::phase_of(k, t_max),
                k as u64,
                initial,
                rates[k - 1],
            ),
            rates[k],
        ),
{
    assert(rate_of_step(rate, initial, t_max, rates, k));
}

/// What step `k` of a run does. It trains on the batch whose turn it is: in epoch
/// `k / n + 1`, which has its own order, the one in place `k % n`. The gradient is that of the
/// parameters before the step. What the optimizer gets of it is 0 in places 0 to 3 where
/// initial stability is frozen and in places 15 to 22 where the fast trace is, and the same
/// elsewhere. What the optimizer gives is clipped, and that is what the next step starts from.
pub proof fn law_what_a_step_does<S, G, O>(
    gradient: G,
    optimize: O,
    run: TrainingRun,
    batches: Seq<BatchHost>,
    rates: Seq<Double>,
    states: Seq<S>,
    ws: Seq<Seq<Single>>,
    k: int,
) where
    G: Fn(&TrainingRun, &Vec<Single>, &BatchHost) -> Vec<Single>,
    O: Fn(S, &Vec<Single>, &Vec<Single>, Double) -> (S, Vec<Single>),

    requires
        stepped(gradient, optimize, run, batches, rates, states, ws),
        0 <= k < ws.len() - 1,
    ensures
        ({
            let n = batches.len();
            let order = crate::shuffle::epoch_order(
                run.config.seed,
                n,
                (k / (n as int) + 1) as nat,
            );
            let place = order[k % (n as int)] as int;
            0 <= place < n && exists|
                p: &Vec<Single>,
                g: Vec<Single>,
                f: &Vec<Single>,
                raw: Vec<Single>,
            |
                #![trigger call_ensures(gradient, (&run, p, &batches[place]), g), call_ensures(optimize, (states[k], p, f, rates[k]), (states[k + 1], raw))]
                {
                    &&& call_ensures(gradient, (&run, p, &batches[place]), g)
                    &&& call_ensures(
                        optimize,
                        (states[k], p, f, rates[k]),
                        (states[k + 1], raw),
                    )
                    &&& p@ == ws[k]
                    &&& f@.len() == g@.len()
                    &&& forall|i: int|
                        0 <= i < g@.len() ==> #[trigger] f@[i] == if (
                        run.config.model.freeze_initial_stability && i <= 3) || (
                        run.config.model.freeze_short_term_stability && 15 <= i <= 22) {
                            Single::zero()
                        } else {
                            g@[i]
                        }
                    &&& ws[k + 1] == crate::parameters::clipped(raw@)
                }
        }),
{
    assert(taken_step(
        gradient,
        optimize,
        run,
        batches,
        rates,
        k,
        states[k],
        ws[k],
        states[k + 1],
        ws[k + 1],
    ));
    let batch = batches[batch_of_step(run.config.seed, batches.len(), k)];
    let (state, next, lr) = (states[k], states[k + 1], rates[k]);
    let model = run.config.model;
    let (p, g, f, raw) = choose|p: &Vec<Single>, g: Vec<Single>, f: &Vec<Single>, raw: Vec<Single>|
        #![trigger call_ensures(gradient, (&run, p, &batch), g), optimized(optimize, state, p, f, lr, next, raw)]
        call_ensures(gradient, (&run, p, &batch), g) && optimized(
            optimize,
            state,
            p,
            f,
            lr,
            next,
            raw,
        ) && p@ == ws[k] && f@ == crate::penalty::frozen(
            g@,
            model.freeze_initial_stability,
            model.freeze_short_term_stability,
        ) && ws[k + 1] == crate::parameters::clipped(raw@);
    assert(optimized(optimize, state, p, f, lr, next, raw));
    assert(call_ensures(optimize, (states[k], p, f, rates[k]), (states[k + 1], raw)));
    assert(call_ensures(gradient, (&run, p, &batch), g));
}

/// What epoch `e` is scored by: the parameters after all of its `n` steps, and their loss.
pub proof fn law_what_an_epoch_is_scored_by<E, P, D>(
    score: E,
    plus: P,
    mean: D,
    run: TrainingRun,
    valid: Seq<BatchHost>,
    order: Seq<usize>,
    n: int,
    ws: Seq<Seq<Single>>,
    scores: Seq<(Double, Seq<Single>)>,
    e: int,
) where
    E: Fn(&TrainingRun, &Vec<Single>, &BatchHost) -> Double,
    P: Fn(Double, Double) -> Double,
    D: Fn(&TrainingRun, Double) -> Double,

    requires
        scored(score, plus, mean, run, valid, order, n, ws, scores),
        0 <= e < scores.len(),
    ensures
        scores[e].1 == ws[(e + 1) * n],
        exists|p: &Vec<Single>| #[trigger]
            loss_of(score, plus, mean, run, p, valid, order, scores[e].0) && p@ == scores[e].1,
{
    assert(score_of_epoch(score, plus, mean, run, valid, order, ws[(e + 1) * n], scores[e]));
}

/// What is added up for a validation loss: for each place in the order given, once, what the
/// batch in that place is scored with the parameters that are validated; beginning with 0.
pub proof fn law_what_is_added_up<E, P>(
    score: E,
    plus: P,
    run: TrainingRun,
    w: &Vec<Single>,
    valid: Seq<BatchHost>,
    order: Seq<usize>,
    losses: Seq<Double>,
    sum: Double,
    i: int,
) where
    E: Fn(&TrainingRun, &Vec<Single>, &BatchHost) -> Double,
    P: Fn(Double, Double) -> Double,

    requires
        added_up(score, plus, run, w, valid, order, losses, sum),
        0 <= i < order.len(),
    ensures
        losses.len() == order.len(),
        order[i] < valid.len(),
        call_ensures(score, (&run, w, &valid[order[i] as int]), losses[i]),
        crate::losses::summed(plus, Double { bits: 0 }, losses, sum),
{
    assert(score_of_batch(score, run, w, valid, order, losses, i));
}

/// What a validation loss is: the mean of what is added up for it, and nothing else.
pub proof fn law_what_a_validation_loss_is<E, P, D>(
    score: E,
    plus: P,
    mean: D,
    run: TrainingRun,
    w: &Vec<Single>,
    valid: Seq<BatchHost>,
    order: Seq<usize>,
    loss: Double,
) where
    E: Fn(&TrainingRun, &Vec<Single>, &BatchHost) -> Double,
    P: Fn(Double, Double) -> Double,
    D: Fn(&TrainingRun, Double) -> Double,

    requires
        loss_of(score, plus, mean, run, w, valid, order, loss),
    ensures
        exists|losses: Seq<Double>, sum: Double| #[trigger]
            added_up(score, plus, run, w, valid, order, losses, sum) && call_ensures(
                mean,
                (&run, sum),
                loss,
            ),
{
}

/// How a run ends. It gives parameters only where it has taken every step of every epoch and
/// was told to go on after each of them. Otherwise it is interrupted: it was told to stop
/// after its last step, and to go on after all before.
pub proof fn law_what_ends_a_run<N: Fn(&TrainingRun, usize, usize, usize) -> bool>(
    run: TrainingRun,
    report: N,
    n: int,
    ws: Seq<Seq<Single>>,
    scores: Seq<(Double, Seq<Single>)>,
    r: Result<Seq<Single>, FSRSError>,
)
    requires
        ended(run, report, n, ws, scores, r),
    ensures
        r is Ok ==> ws.len() - 1 == run.config.num_epochs * n && scores.len()
            == run.config.num_epochs,
        r is Ok ==> forall|k: int|
            0 <= k < run.config.num_epochs * n ==> #[trigger] reported(report, run, n, k, false),
        r matches Err(e) ==> e == FSRSError::Interrupted && 1 <= ws.len() - 1
            <= run.config.num_epochs * n,
        r is Err ==> call_ensures(
            report,
            (
                &run,
                ((ws.len() - 2) / n + 1) as usize,
                ((ws.len() - 2) % n + 1) as usize,
                n as usize,
            ),
            true,
        ),
        r is Err ==> forall|k: int|
            0 <= k < ws.len() - 2 ==> #[trigger] reported(report, run, n, k, false),
        forall|k: int, stop: bool| #[trigger]
            reported(report, run, n, k, stop) ==> call_ensures(
                report,
                (&run, (k / n + 1) as usize, (k % n + 1) as usize, n as usize),
                stop,
            ),
{
}

/// The batches of a run hold every item once: the items sorted by the number of their
/// reviews, the shortest first, and cut into as few batches as hold them.
pub proof fn law_batches_hold_every_item(
    items: Seq<(Single, Seq<FSRSReview>)>,
    size: nat,
    batches: Seq<BatchHost>,
    i: int,
)
    requires
        batches_of(items, size, batches),
        crate::batch::all_reviewed(items),
        size > 0,
        forall|j: int| 0 <= j < items.len() ==> (#[trigger] items[j]).1.len() <= usize::MAX,
        0 <= i < items.len(),
    ensures
        exists|k: int, c: int|
            #![trigger batches[k].wts@[c]]
            {
                &&& 0 <= k < batches.len() && 0 <= c < size
                &&& c < batches[k].bsz
                &&& batches[k].wts@[c] == items[i].0
                &&& batches[k].dts@[c] == items[i].1.last().delta_t
                &&& batches[k].lbl@[c] == Single::one() <==> items[i].1.last().rating != 1
                &&& batches[k].lbl@[c] == Single::zero() <==> items[i].1.last().rating == 1
            },
        forall|k: int|
            0 <= k < batches.len() - 1 ==> (#[trigger] batches[k]).real_batch_size == size,
{
    let sorted = choose|sorted: Seq<(Single, Seq<FSRSReview>)>| #[trigger]
        crate::dataset::sorted_by_length(items, sorted) && forall|k: int|
            0 <= k < batches.len() ==> (#[trigger] batches[k]).holds(
                crate::batch::chunk(sorted, size, k),
            );
    crate::dataset::law_sorting_by_length(items, sorted, sorted);
    assert(sorted.contains(items[i]));
    let j = choose|j: int| 0 <= j < sorted.len() && sorted[j] == items[i];
    crate::batch::law_chunks_make_up_the_list(sorted, size, j);
    let k = j / (size as int);
    let c = j % (size as int);
    crate::batch::law_chunks_follow_one_another(sorted, size, k);
    vstd::arithmetic::div_mod::lemma_fundamental_div_mod(j, size as int);
    vstd::arithmetic::div_mod::lemma_mod_bound(j, size as int);
    vstd::arithmetic::mul::lemma_mul_is_commutative(size as int, k);
    let part = crate::batch::chunk(sorted, size, k);
    if k + 1 == crate::batch::chunk_count(sorted.len(), size) {
        assert(k * size + part.len() == sorted.len());
    }
    assert(c < part.len());
    assert(part[c] == items[i]);
    assert(batches[k].holds(part));
    assert(items[i].1.len() > 0);
    crate::batch::law_host_batches_hold_their_items(batches[k], part, c);
    assert(batches[k].wts@[c] == items[i].0);
    assert forall|k: int| 0 <= k < batches.len() - 1 implies (#[trigger] batches[k]).real_batch_size
        == size by {
        crate::batch::law_chunks_follow_one_another(sorted, size, k);
        assert(batches[k].holds(crate::batch::chunk(sorted, size, k)));
    }
}

} // verus!
