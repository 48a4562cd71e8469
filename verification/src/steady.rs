//! What holds of a training run whatever it is done with: frozen parameters do not move, and
//! a run that is done again ends as it did.

use crate::batch::BatchHost;
use crate::dataset::WeightedFSRSItem;
use crate::double::Double;
use crate::error::FSRSError;
use crate::review::FSRSReview;
use crate::run::{ended, optimized, parameters_stepped, ran, taken_step, trained};
use crate::schedule::Phase;
use crate::single::Single;
use crate::train::{ComputeParametersInput, TrainingRun};
use vstd::prelude::*;

verus! {

/// Whether training of a run leaves parameter `i` alone.
pub open spec fn left_alone(run: TrainingRun, i: int) -> bool {
    crate::penalty::is_frozen(
        run.config.model.freeze_initial_stability,
        run.config.model.freeze_short_term_stability,
        i,
    )
}

/// Whether `optimize` keeps every parameter that the run leaves alone, as long as its
/// gradient is 0. `untouched` says of a state of the optimizer that the gradient of a
/// parameter was 0 in every step so far.
pub open spec fn keeps_untouched<S, O: Fn(S, &Vec<Single>, &Vec<Single>, Double) -> (S, Vec<Single>)>(
    run: TrainingRun,
    optimize: O,
    untouched: spec_fn(S, int) -> bool,
) -> bool {
    forall|
        state: S,
        w: &Vec<Single>,
        g: &Vec<Single>,
        lr: Double,
        next: S,
        raw: Vec<Single>,
        i: int,
    |
        #![trigger optimized(optimize, state, w, g, lr, next, raw), untouched(next, i)]
        #![trigger optimized(optimize, state, w, g, lr, next, raw), raw@[i]]
        optimized(optimize, state, w, g, lr, next, raw) && left_alone(run, i) && untouched(state, i)
            && 0 <= i < g@.len() && g@[i] == Single::zero() ==> raw@[i] == w@[i] && untouched(
            next,
            i,
        )
}

proof fn lemma_clipping_goes_by_place(run: TrainingRun, a: Seq<Single>, b: Seq<Single>)
    requires
        a.len() >= 34,
        a.len() == b.len(),
        forall|i: int| left_alone(run, i) ==> #[trigger] a[i] == b[i],
    ensures
        forall|i: int|
            left_alone(run, i) ==> #[trigger] crate::parameters::clipped(a)[i]
                == crate::parameters::clipped(b)[i],
{
    assert forall|i: int| left_alone(run, i) implies #[trigger] crate::parameters::clipped(a)[i]
        == crate::parameters::clipped(b)[i] by {
        assert(a[i] == b[i]);
        if run.config.model.freeze_initial_stability {
            assert(left_alone(run, 0) && left_alone(run, 1) && left_alone(run, 2) && left_alone(
                run,
                3,
            ));
            assert(a[0] == b[0] && a[1] == b[1] && a[2] == b[2] && a[3] == b[3]);
        }
    }
}

/// The parameters that a run leaves alone do not move: after every step they are the ones
/// that it started from, clipped, where the optimizer keeps parameters whose gradient is 0.
pub proof fn law_frozen_parameters_stay<S, R, G, O, E, P, D>(
    run: TrainingRun,
    start: S,
    rate: R,
    gradient: G,
    optimize: O,
    score: E,
    plus: P,
    mean: D,
    batches: Seq<BatchHost>,
    valid: Seq<BatchHost>,
    rates: Seq<Double>,
    states: Seq<S>,
    ws: Seq<Seq<Single>>,
    scores: Seq<(Double, Seq<Single>)>,
    untouched: spec_fn(S, int) -> bool,
    k: int,
) where
    R: Fn(u64, Phase, u64, Double, Double) -> Double,
    G: Fn(&TrainingRun, &Vec<Single>, &BatchHost) -> Vec<Single>,
    O: Fn(S, &Vec<Single>, &Vec<Single>, Double) -> (S, Vec<Single>),
    E: Fn(&TrainingRun, &Vec<Single>, &BatchHost) -> Double,
    P: Fn(Double, Double) -> Double,
    D: Fn(&TrainingRun, Double) -> Double,

    requires
        ran(
            run,
            start,
            rate,
            gradient,
            optimize,
            score,
            plus,
            mean,
            batches,
            valid,
            rates,
            states,
            ws,
            scores,
        ),
        crate::run::can_step::<S, G, O>(run, gradient, optimize),
        run.initial_parameters@.len() >= 34,
        keeps_untouched(run, optimize, untouched),
        forall|i: int| left_alone(run, i) ==> #[trigger] untouched(start, i),
        0 <= k < ws.len(),
    ensures
        crate::run::on_the_way(run, ws[k]),
        forall|i: int| left_alone(run, i) ==> #[trigger] untouched(states[k], i),
        forall|i: int|
            left_alone(run, i) ==> #[trigger] ws[k][i] == crate::parameters::clipped(
                run.initial_parameters@,
            )[i],
    decreases k,
{
    if k == 0 {
        crate::parameters::law_clipped_parameters_are_in_range(run.initial_parameters@);
        crate::parameters::law_clipping_twice_is_clipping_once(run.initial_parameters@);
    } else {
        law_frozen_parameters_stay(
            run,
            start,
            rate,
            gradient,
            optimize,
            score,
            plus,
            mean,
            batches,
            valid,
            rates,
            states,
            ws,
            scores,
            untouched,
            k - 1,
        );
        let j = k - 1;
        assert(taken_step(
            gradient,
            optimize,
            run,
            batches,
            rates,
            j,
            states[j],
            ws[j],
            states[j + 1],
            ws[j + 1],
        ));
        let batch = batches[crate::run::batch_of_step(run.config.seed, batches.len(), j)];
        let (state, next, lr) = (states[j], states[k], rates[j]);
        let model = run.config.model;
        let (p, g, f, raw) = choose|p: &Vec<Single>, g: Vec<Single>, f: &Vec<Single>, raw: Vec<Single>|
            #![trigger call_ensures(gradient, (&run, p, &batch), g), optimized(optimize, state, p, f, lr, next, raw)]
            call_ensures(gradient, (&run, p, &batch), g) && optimized(
                optimize,
                state,
                p,
                f,
                lr,
                next,
                raw,
            ) && p@ == ws[j] && f@ == crate::penalty::frozen(
                g@,
                model.freeze_initial_stability,
                model.freeze_short_term_stability,
            ) && ws[k] == crate::parameters::clipped(raw@);
        assert(g@.len() == p@.len());
        assert(raw@.len() == p@.len());
        assert forall|i: int| left_alone(run, i) implies #[trigger] raw@[i] == p@[i] by {
            assert(untouched(state, i));
            assert(f@[i] == Single::zero());
        }
        assert forall|i: int| left_alone(run, i) implies #[trigger] untouched(next, i) by {
            assert(untouched(state, i));
            assert(f@[i] == Single::zero());
        }
        lemma_clipping_goes_by_place(run, raw@, p@);
        crate::parameters::law_clipped_parameters_are_in_range(raw@);
        crate::parameters::law_clipping_twice_is_clipping_once(raw@);
        assert forall|i: int| left_alone(run, i) implies #[trigger] ws[k][i]
            == crate::parameters::clipped(run.initial_parameters@)[i] by {
            assert(crate::parameters::clipped(raw@)[i] == crate::parameters::clipped(p@)[i]);
            assert(ws[j][i] == crate::parameters::clipped(run.initial_parameters@)[i]);
        }
    }
}

/// Training gives back the parameters that it leaves alone: in its result they are the ones
/// that it started from, clipped, where the optimizer keeps parameters whose gradient is 0.
/// So with initial stability frozen, the first four parameters never move.
pub proof fn law_frozen_parameters_come_back<S, R, G, O, N, E, P, D>(
    run: TrainingRun,
    start: S,
    rate: R,
    gradient: G,
    optimize: O,
    report: N,
    score: E,
    plus: P,
    mean: D,
    untouched: spec_fn(S, int) -> bool,
    result: Seq<Single>,
) where
    R: Fn(u64, Phase, u64, Double, Double) -> Double,
    G: Fn(&TrainingRun, &Vec<Single>, &BatchHost) -> Vec<Single>,
    O: Fn(S, &Vec<Single>, &Vec<Single>, Double) -> (S, Vec<Single>),
    N: Fn(&TrainingRun, usize, usize, usize) -> bool,
    E: Fn(&TrainingRun, &Vec<Single>, &BatchHost) -> Double,
    P: Fn(Double, Double) -> Double,
    D: Fn(&TrainingRun, Double) -> Double,

    requires
        trained(
            run,
            start,
            rate,
            gradient,
            optimize,
            report,
            score,
            plus,
            mean,
            Ok::<Seq<Single>, FSRSError>(result),
        ),
        crate::run::can_step::<S, G, O>(run, gradient, optimize),
        run.initial_parameters@.len() >= 34,
        keeps_untouched(run, optimize, untouched),
        forall|i: int| left_alone(run, i) ==> #[trigger] untouched(start, i),
    ensures
        forall|i: int|
            left_alone(run, i) ==> #[trigger] result[i] == crate::parameters::clipped(
                run.initial_parameters@,
            )[i],
        run.config.model.freeze_initial_stability ==> result.take(4)
            == crate::parameters::clipped(run.initial_parameters@).take(4),
{
    let first = crate::parameters::clipped(run.initial_parameters@);
    crate::parameters::law_clipped_parameters_are_in_range(run.initial_parameters@);
    let ended_ok = Ok::<Seq<Single>, FSRSError>(result);
    let (batches, valid, rates, states, ws, scores) = choose|
        batches: Seq<BatchHost>,
        valid: Seq<BatchHost>,
        rates: Seq<Double>,
        states: Seq<S>,
        ws: Seq<Seq<Single>>,
        scores: Seq<(Double, Seq<Single>)>,
    | #[trigger]
        ran(
            run,
            start,
            rate,
            gradient,
            optimize,
            score,
            plus,
            mean,
            batches,
            valid,
            rates,
            states,
            ws,
            scores,
        ) && ended(run, report, batches.len() as int, ws, scores, ended_ok);
    crate::run::law_result_comes_from_the_best_epoch(first, scores);
    if result != first {
        let best = crate::trainer::best_of(
            scores.map_values(|score: (Double, Seq<Single>)| score.0),
        );
        let e = choose|e: int|
            0 <= e < scores.len() && (#[trigger] scores[e]).0 == best && crate::run::best_result(
                first,
                scores,
            ) == scores[e].1 && forall|j: int|
                0 <= j < e && !(#[trigger] scores[j]).0.nan() ==> scores[e].0.below(scores[j].0);
        let n = batches.len() as int;
        let order = crate::shuffle::epoch_order(run.config.seed, valid.len(), 1);
        assert(crate::run::score_of_epoch(
            score,
            plus,
            mean,
            run,
            valid,
            order,
            ws[(e + 1) * n],
            scores[e],
        ));
        assert(0 <= (e + 1) * n <= run.config.num_epochs * n) by (nonlinear_arith)
            requires
                0 <= e < run.config.num_epochs,
                0 <= n,
        ;
        law_frozen_parameters_stay(
            run,
            start,
            rate,
            gradient,
            optimize,
            score,
            plus,
            mean,
            batches,
            valid,
            rates,
            states,
            ws,
            scores,
            untouched,
            (e + 1) * n,
        );
    }
    if run.config.model.freeze_initial_stability {
        assert forall|i: int| 0 <= i < 4 implies result[i] == first[i] by {
            assert(left_alone(run, i));
        }
        assert(result.len() == first.len());
        assert(result.take(4) =~= first.take(4));
    }
}

/// Whether two runs are the same: set to the same, on the same items, from the same
/// parameters.
pub open spec fn same_run(a: TrainingRun, b: TrainingRun) -> bool {
    &&& a.config == b.config
    &&& crate::dataset::weighted(a.items@) == crate::dataset::weighted(b.items@)
    &&& crate::dataset::weighted(a.test_items@) == crate::dataset::weighted(b.test_items@)
    &&& a.initial_parameters@ == b.initial_parameters@
}

/// Whether two batches hold the same.
pub open spec fn same_batch(a: BatchHost, b: BatchHost) -> bool {
    &&& a.seq == b.seq
    &&& a.bsz == b.bsz
    &&& a.real_batch_size == b.real_batch_size
    &&& a.th@ == b.th@
    &&& a.rh@ == b.rh@
    &&& a.dts@ == b.dts@
    &&& a.lbl@ == b.lbl@
    &&& a.wts@ == b.wts@
}

/// Whether two lists of batches hold the same.
pub open spec fn same_batches(a: Seq<BatchHost>, b: Seq<BatchHost>) -> bool {
    a.len() == b.len() && forall|k: int|
        #![trigger a[k]]
        #![trigger b[k]]
        0 <= k < a.len() ==> same_batch(a[k], b[k])
}

/// Whether `rate` gives the same rate for the same arguments.
pub open spec fn one_rate<R: Fn(u64, Phase, u64, Double, Double) -> Double>(rate: R) -> bool {
    forall|t_max: u64, phase: Phase, k: u64, init: Double, before: Double, x: Double, y: Double|
        #![trigger call_ensures(rate, (t_max, phase, k, init, before), x), call_ensures(rate, (t_max, phase, k, init, before), y)]
        call_ensures(rate, (t_max, phase, k, init, before), x) && call_ensures(
            rate,
            (t_max, phase, k, init, before),
            y,
        ) ==> x == y
}

/// Whether `gradient` gives the same gradient for the same arguments.
pub open spec fn one_gradient<G: Fn(&TrainingRun, &Vec<Single>, &BatchHost) -> Vec<Single>>(
    gradient: G,
) -> bool {
    forall|
        a: &TrainingRun,
        b: &TrainingRun,
        p: &Vec<Single>,
        q: &Vec<Single>,
        c: &BatchHost,
        d: &BatchHost,
        x: Vec<Single>,
        y: Vec<Single>,
    |
        #![trigger call_ensures(gradient, (a, p, c), x), call_ensures(gradient, (b, q, d), y)]
        call_ensures(gradient, (a, p, c), x) && call_ensures(gradient, (b, q, d), y) && same_run(
            *a,
            *b,
        ) && p@ == q@ && same_batch(*c, *d) ==> x@ == y@
}

/// Whether `optimize` gives the same parameters for the same arguments. `alike` says of two
/// states of the optimizer that they are the same.
pub open spec fn one_optimum<S, O: Fn(S, &Vec<Single>, &Vec<Single>, Double) -> (S, Vec<Single>)>(
    optimize: O,
    alike: spec_fn(S, S) -> bool,
) -> bool {
    forall|
        s: S,
        t: S,
        p: &Vec<Single>,
        q: &Vec<Single>,
        g: &Vec<Single>,
        h: &Vec<Single>,
        lr: Double,
        s_next: S,
        t_next: S,
        x: Vec<Single>,
        y: Vec<Single>,
    |
        #![trigger optimized(optimize, s, p, g, lr, s_next, x), optimized(optimize, t, q, h, lr, t_next, y)]
        optimized(optimize, s, p, g, lr, s_next, x) && optimized(
            optimize,
            t,
            q,
            h,
            lr,
            t_next,
            y,
        ) && alike(s, t) && p@ == q@ && g@ == h@ ==> alike(s_next, t_next) && x@ == y@
}

/// Whether `report` says the same for the same arguments.
pub open spec fn one_report<N: Fn(&TrainingRun, usize, usize, usize) -> bool>(report: N) -> bool {
    forall|
        a: &TrainingRun,
        b: &TrainingRun,
        epoch: usize,
        iteration: usize,
        n: usize,
        x: bool,
        y: bool,
    |
        #![trigger call_ensures(report, (a, epoch, iteration, n), x), call_ensures(report, (b, epoch, iteration, n), y)]
        call_ensures(report, (a, epoch, iteration, n), x) && call_ensures(
            report,
            (b, epoch, iteration, n),
            y,
        ) && same_run(*a, *b) ==> x == y
}

/// Whether `score` gives the same loss for the same arguments.
pub open spec fn one_score<E: Fn(&TrainingRun, &Vec<Single>, &BatchHost) -> Double>(
    score: E,
) -> bool {
    forall|
        a: &TrainingRun,
        b: &TrainingRun,
        p: &Vec<Single>,
        q: &Vec<Single>,
        c: &BatchHost,
        d: &BatchHost,
        x: Double,
        y: Double,
    |
        #![trigger call_ensures(score, (a, p, c), x), call_ensures(score, (b, q, d), y)]
        call_ensures(score, (a, p, c), x) && call_ensures(score, (b, q, d), y) && same_run(*a, *b)
            && p@ == q@ && same_batch(*c, *d) ==> x == y
}

/// Whether `plus` gives the same sum for the same arguments.
pub open spec fn one_sum<P: Fn(Double, Double) -> Double>(plus: P) -> bool {
    forall|a: Double, b: Double, x: Double, y: Double|
        #![trigger call_ensures(plus, (a, b), x), call_ensures(plus, (a, b), y)]
        call_ensures(plus, (a, b), x) && call_ensures(plus, (a, b), y) ==> x == y
}

/// Whether `mean` gives the same mean for the same arguments.
pub open spec fn one_mean<D: Fn(&TrainingRun, Double) -> Double>(mean: D) -> bool {
    forall|a: &TrainingRun, b: &TrainingRun, sum: Double, x: Double, y: Double|
        #![trigger call_ensures(mean, (a, sum), x), call_ensures(mean, (b, sum), y)]
        call_ensures(mean, (a, sum), x) && call_ensures(mean, (b, sum), y) && same_run(*a, *b)
            ==> x == y
}

/// Whether the functions passed to a run give the same for the same arguments.
pub open spec fn goes_by_arguments<S, R, G, O, N, E, P, D>(
    rate: R,
    gradient: G,
    optimize: O,
    report: N,
    score: E,
    plus: P,
    mean: D,
    alike: spec_fn(S, S) -> bool,
) -> bool where
    R: Fn(u64, Phase, u64, Double, Double) -> Double,
    G: Fn(&TrainingRun, &Vec<Single>, &BatchHost) -> Vec<Single>,
    O: Fn(S, &Vec<Single>, &Vec<Single>, Double) -> (S, Vec<Single>),
    N: Fn(&TrainingRun, usize, usize, usize) -> bool,
    E: Fn(&TrainingRun, &Vec<Single>, &BatchHost) -> Double,
    P: Fn(Double, Double) -> Double,
    D: Fn(&TrainingRun, Double) -> Double,
 {
    &&& one_rate(rate)
    &&& one_gradient(gradient)
    &&& one_optimum(optimize, alike)
    &&& one_report(report)
    &&& one_score(score)
    &&& one_sum(plus)
    &&& one_mean(mean)
}

proof fn lemma_batches_agree(
    given: Seq<WeightedFSRSItem>,
    size: nat,
    first: Seq<BatchHost>,
    second: Seq<BatchHost>,
)
    requires
        crate::run::batches_of(crate::dataset::weighted(given), size, first),
        crate::run::batches_of(crate::dataset::weighted(given), size, second),
    ensures
        same_batches(first, second),
{
    let items = crate::dataset::weighted(given);
    let s = choose|sorted: Seq<(Single, Seq<FSRSReview>)>| #[trigger]
        crate::dataset::sorted_by_length(items, sorted) && forall|k: int|
            0 <= k < first.len() ==> (#[trigger] first[k]).holds(
                crate::batch::chunk(sorted, size, k),
            );
    let t = choose|sorted: Seq<(Single, Seq<FSRSReview>)>| #[trigger]
        crate::dataset::sorted_by_length(items, sorted) && forall|k: int|
            0 <= k < second.len() ==> (#[trigger] second[k]).holds(
                crate::batch::chunk(sorted, size, k),
            );
    assert forall|i: int| 0 <= i < items.len() implies (#[trigger] items[i]).1.len() <= usize::MAX by {
        assert(items[i] == given[i]@);
        assert(given[i].item.reviews.len() <= usize::MAX);
    }
    crate::dataset::law_sorting_by_length(items, s, t);
    assert forall|k: int|
        #![trigger first[k]]
        #![trigger second[k]]
        0 <= k < first.len() implies same_batch(first[k], second[k]) by {
        let chunk = crate::batch::chunk(s, size, k);
        assert(first[k].holds(chunk));
        assert(second[k].holds(chunk));
        let histories = crate::batch::histories(chunk);
        let c = choose|c: int|
            0 <= c < histories.len() && (#[trigger] histories[c]).len() == first[k].seq;
        let d = choose|d: int|
            0 <= d < histories.len() && (#[trigger] histories[d]).len() == second[k].seq;
        assert(histories[c].len() <= second[k].seq);
        assert(histories[d].len() <= first[k].seq);
    }
}

proof fn lemma_rates_agree<R: Fn(u64, Phase, u64, Double, Double) -> Double>(
    rate: R,
    initial: Double,
    t_max: int,
    first: Seq<Double>,
    second: Seq<Double>,
    k: int,
)
    requires
        one_rate(rate),
        crate::run::rated(rate, initial, t_max, first),
        crate::run::rated(rate, initial, t_max, second),
        0 <= k < first.len(),
        k < second.len(),
    ensures
        first[k] == second[k],
    decreases k,
{
    if k > 0 {
        lemma_rates_agree(rate, initial, t_max, first, second, k - 1);
    }
    assert(crate::run::rate_of_step(rate, initial, t_max, first, k));
    assert(crate::run::rate_of_step(rate, initial, t_max, second, k));
}

proof fn lemma_steps_agree<S, G, O>(
    gradient: G,
    optimize: O,
    alike: spec_fn(S, S) -> bool,
    a: TrainingRun,
    b: TrainingRun,
    c: BatchHost,
    d: BatchHost,
    lr: Double,
    s: S,
    t: S,
    w: Seq<Single>,
    s_next: S,
    t_next: S,
    x: Seq<Single>,
    y: Seq<Single>,
) where
    G: Fn(&TrainingRun, &Vec<Single>, &BatchHost) -> Vec<Single>,
    O: Fn(S, &Vec<Single>, &Vec<Single>, Double) -> (S, Vec<Single>),

    requires
        same_run(a, b),
        same_batch(c, d),
        alike(s, t),
        one_gradient(gradient),
        one_optimum(optimize, alike),
        parameters_stepped(gradient, optimize, a, c, lr, s, w, s_next, x),
        parameters_stepped(gradient, optimize, b, d, lr, t, w, t_next, y),
    ensures
        alike(s_next, t_next),
        x == y,
{
    let model = a.config.model;
    let (p, g, f, m) = choose|p: &Vec<Single>, g: Vec<Single>, f: &Vec<Single>, raw: Vec<Single>|
        #![trigger call_ensures(gradient, (&a, p, &c), g), optimized(optimize, s, p, f, lr, s_next, raw)]
        call_ensures(gradient, (&a, p, &c), g) && optimized(
            optimize,
            s,
            p,
            f,
            lr,
            s_next,
            raw,
        ) && p@ == w && f@ == crate::penalty::frozen(
            g@,
            model.freeze_initial_stability,
            model.freeze_short_term_stability,
        ) && x == crate::parameters::clipped(raw@);
    let (q, h, e, n) = choose|p: &Vec<Single>, g: Vec<Single>, f: &Vec<Single>, raw: Vec<Single>|
        #![trigger call_ensures(gradient, (&b, p, &d), g), optimized(optimize, t, p, f, lr, t_next, raw)]
        call_ensures(gradient, (&b, p, &d), g) && optimized(
            optimize,
            t,
            p,
            f,
            lr,
            t_next,
            raw,
        ) && p@ == w && f@ == crate::penalty::frozen(
            g@,
            model.freeze_initial_stability,
            model.freeze_short_term_stability,
        ) && y == crate::parameters::clipped(raw@);
    assert(g@ == h@);
    assert(m@ == n@);
}

proof fn lemma_parameters_agree<S, R, G, O, E, P, D>(
    a: TrainingRun,
    b: TrainingRun,
    start: S,
    again: S,
    rate: R,
    gradient: G,
    optimize: O,
    score: E,
    plus: P,
    mean: D,
    alike: spec_fn(S, S) -> bool,
    first: Seq<BatchHost>,
    second: Seq<BatchHost>,
    valid: Seq<BatchHost>,
    also: Seq<BatchHost>,
    rs: Seq<Double>,
    qs: Seq<Double>,
    ss: Seq<S>,
    ts: Seq<S>,
    ws: Seq<Seq<Single>>,
    vs: Seq<Seq<Single>>,
    scores: Seq<(Double, Seq<Single>)>,
    others: Seq<(Double, Seq<Single>)>,
    k: int,
) where
    R: Fn(u64, Phase, u64, Double, Double) -> Double,
    G: Fn(&TrainingRun, &Vec<Single>, &BatchHost) -> Vec<Single>,
    O: Fn(S, &Vec<Single>, &Vec<Single>, Double) -> (S, Vec<Single>),
    E: Fn(&TrainingRun, &Vec<Single>, &BatchHost) -> Double,
    P: Fn(Double, Double) -> Double,
    D: Fn(&TrainingRun, Double) -> Double,

    requires
        same_run(a, b),
        alike(start, again),
        one_rate(rate),
        one_gradient(gradient),
        one_optimum(optimize, alike),
        ran(
            a,
            start,
            rate,
            gradient,
            optimize,
            score,
            plus,
            mean,
            first,
            valid,
            rs,
            ss,
            ws,
            scores,
        ),
        ran(
            b,
            again,
            rate,
            gradient,
            optimize,
            score,
            plus,
            mean,
            second,
            also,
            qs,
            ts,
            vs,
            others,
        ),
        0 <= k < ws.len(),
        k < vs.len(),
    ensures
        ws[k] == vs[k],
        alike(ss[k], ts[k]),
    decreases k,
{
    if k > 0 {
        let j = k - 1;
        lemma_parameters_agree(
            a,
            b,
            start,
            again,
            rate,
            gradient,
            optimize,
            score,
            plus,
            mean,
            alike,
            first,
            second,
            valid,
            also,
            rs,
            qs,
            ss,
            ts,
            ws,
            vs,
            scores,
            others,
            j,
        );
        lemma_batches_agree(a.items@, a.config.batch_size as nat, first, second);
        assert(a.items@.len() == b.items@.len()) by {
            assert(crate::dataset::weighted(a.items@).len() == a.items@.len());
            assert(crate::dataset::weighted(b.items@).len() == b.items@.len());
        }
        lemma_rates_agree(
            rate,
            a.config.learning_rate,
            a.config.iterations_for(a.items@.len() as int),
            rs,
            qs,
            j,
        );
        assert(taken_step(
            gradient,
            optimize,
            a,
            first,
            rs,
            j,
            ss[j],
            ws[j],
            ss[j + 1],
            ws[j + 1],
        ));
        assert(taken_step(
            gradient,
            optimize,
            b,
            second,
            qs,
            j,
            ts[j],
            vs[j],
            ts[j + 1],
            vs[j + 1],
        ));
        let place = crate::run::batch_of_step(a.config.seed, first.len(), j);
        assert(same_batch(first[place], second[place]));
        lemma_steps_agree(
            gradient,
            optimize,
            alike,
            a,
            b,
            first[place],
            second[place],
            rs[j],
            ss[j],
            ts[j],
            ws[j],
            ss[k],
            ts[k],
            ws[k],
            vs[k],
        );
    }
}

proof fn lemma_sums_agree<P: Fn(Double, Double) -> Double>(
    plus: P,
    zero: Double,
    terms: Seq<Double>,
    a: Seq<Double>,
    b: Seq<Double>,
    i: int,
)
    requires
        one_sum(plus),
        crate::losses::running(plus, zero, terms, a),
        crate::losses::running(plus, zero, terms, b),
        0 <= i <= terms.len(),
    ensures
        a[i] == b[i],
    decreases i,
{
    if i > 0 {
        lemma_sums_agree(plus, zero, terms, a, b, i - 1);
        assert(crate::losses::plus_one(plus, terms, a, i - 1));
        assert(crate::losses::plus_one(plus, terms, b, i - 1));
    }
}

proof fn lemma_losses_agree<E, P, D>(
    score: E,
    plus: P,
    mean: D,
    a: TrainingRun,
    b: TrainingRun,
    first: Seq<BatchHost>,
    second: Seq<BatchHost>,
    order: Seq<usize>,
    w: Seq<Single>,
    x: (Double, Seq<Single>),
    y: (Double, Seq<Single>),
) where
    E: Fn(&TrainingRun, &Vec<Single>, &BatchHost) -> Double,
    P: Fn(Double, Double) -> Double,
    D: Fn(&TrainingRun, Double) -> Double,

    requires
        same_run(a, b),
        same_batches(first, second),
        one_score(score),
        one_sum(plus),
        one_mean(mean),
        crate::run::score_of_epoch(score, plus, mean, a, first, order, w, x),
        crate::run::score_of_epoch(score, plus, mean, b, second, order, w, y),
    ensures
        x == y,
{
    let zero = Double { bits: 0 };
    let p = choose|p: &Vec<Single>| #[trigger]
        crate::run::loss_of(score, plus, mean, a, p, first, order, x.0) && p@ == w;
    let q = choose|q: &Vec<Single>| #[trigger]
        crate::run::loss_of(score, plus, mean, b, q, second, order, y.0) && q@ == w;
    let (ls, s) = choose|losses: Seq<Double>, sum: Double| #[trigger]
        crate::run::added_up(score, plus, a, p, first, order, losses, sum) && call_ensures(
            mean,
            (&a, sum),
            x.0,
        );
    let (ms, t) = choose|losses: Seq<Double>, sum: Double| #[trigger]
        crate::run::added_up(score, plus, b, q, second, order, losses, sum) && call_ensures(
            mean,
            (&b, sum),
            y.0,
        );
    assert forall|i: int| 0 <= i < ls.len() implies ls[i] == ms[i] by {
        assert(crate::run::score_of_batch(score, a, p, first, order, ls, i));
        assert(crate::run::score_of_batch(score, b, q, second, order, ms, i));
        assert(same_batch(first[order[i] as int], second[order[i] as int]));
    }
    assert(ls =~= ms);
    let us = choose|totals: Seq<Double>| #[trigger]
        crate::losses::running(plus, zero, ls, totals) && totals.last() == s;
    let vs = choose|totals: Seq<Double>| #[trigger]
        crate::losses::running(plus, zero, ms, totals) && totals.last() == t;
    lemma_sums_agree(plus, zero, ls, us, vs, ls.len() as int);
    assert(s == t);
    assert(x.0 == y.0);
}

/// A run that is done again ends as it did, to the bit: its batches, their order, its
/// learning rates and its steps are the same, where the functions passed in give the same
/// for the same arguments.
pub proof fn law_runs_end_alike<S, R, G, O, N, E, P, D>(
    a: TrainingRun,
    b: TrainingRun,
    start: S,
    again: S,
    rate: R,
    gradient: G,
    optimize: O,
    report: N,
    score: E,
    plus: P,
    mean: D,
    alike: spec_fn(S, S) -> bool,
    x: Result<Seq<Single>, FSRSError>,
    y: Result<Seq<Single>, FSRSError>,
) where
    R: Fn(u64, Phase, u64, Double, Double) -> Double,
    G: Fn(&TrainingRun, &Vec<Single>, &BatchHost) -> Vec<Single>,
    O: Fn(S, &Vec<Single>, &Vec<Single>, Double) -> (S, Vec<Single>),
    N: Fn(&TrainingRun, usize, usize, usize) -> bool,
    E: Fn(&TrainingRun, &Vec<Single>, &BatchHost) -> Double,
    P: Fn(Double, Double) -> Double,
    D: Fn(&TrainingRun, Double) -> Double,

    requires
        same_run(a, b),
        alike(start, again),
        goes_by_arguments(rate, gradient, optimize, report, score, plus, mean, alike),
        trained(a, start, rate, gradient, optimize, report, score, plus, mean, x),
        trained(b, again, rate, gradient, optimize, report, score, plus, mean, y),
    ensures
        x == y,
{
    let (first, valid, rs, ss, ws, scores) = choose|
        batches: Seq<BatchHost>,
        valid: Seq<BatchHost>,
        rates: Seq<Double>,
        states: Seq<S>,
        ws: Seq<Seq<Single>>,
        scores: Seq<(Double, Seq<Single>)>,
    | #[trigger]
        ran(
            a,
            start,
            rate,
            gradient,
            optimize,
            score,
            plus,
            mean,
            batches,
            valid,
            rates,
            states,
            ws,
            scores,
        ) && ended(a, report, batches.len() as int, ws, scores, x);
    let (second, also, qs, ts, vs, others) = choose|
        batches: Seq<BatchHost>,
        valid: Seq<BatchHost>,
        rates: Seq<Double>,
        states: Seq<S>,
        ws: Seq<Seq<Single>>,
        scores: Seq<(Double, Seq<Single>)>,
    | #[trigger]
        ran(
            b,
            again,
            rate,
            gradient,
            optimize,
            score,
            plus,
            mean,
            batches,
            valid,
            rates,
            states,
            ws,
            scores,
        ) && ended(b, report, batches.len() as int, ws, scores, y);
    lemma_batches_agree(a.items@, a.config.batch_size as nat, first, second);
    lemma_batches_agree(a.test_items@, a.config.batch_size as nat, valid, also);
    let n = first.len() as int;
    if x is Ok && y is Err {
        assert(crate::run::reported(report, a, n, vs.len() - 2, false));
        assert(crate::run::reported(report, b, n, vs.len() - 2, true));
    } else if x is Err && y is Ok {
        assert(crate::run::reported(report, a, n, ws.len() - 2, true));
        assert(crate::run::reported(report, b, n, ws.len() - 2, false));
    } else if x is Ok && y is Ok {
        let order = crate::shuffle::epoch_order(a.config.seed, valid.len(), 1);
        assert forall|e: int| 0 <= e < scores.len() implies scores[e] == others[e] by {
            let k = (e + 1) * n;
            assert(0 <= k <= a.config.num_epochs * n) by (nonlinear_arith)
                requires
                    k == (e + 1) * n,
                    0 <= e < a.config.num_epochs,
                    0 <= n,
            ;
            lemma_parameters_agree(
                a,
                b,
                start,
                again,
                rate,
                gradient,
                optimize,
                score,
                plus,
                mean,
                alike,
                first,
                second,
                valid,
                also,
                rs,
                qs,
                ss,
                ts,
                ws,
                vs,
                scores,
                others,
                k,
            );
            assert(crate::run::score_of_epoch(
                score,
                plus,
                mean,
                a,
                valid,
                order,
                ws[(e + 1) * n],
                scores[e],
            ));
            assert(crate::run::score_of_epoch(
                score,
                plus,
                mean,
                b,
                also,
                order,
                vs[(e + 1) * n],
                others[e],
            ));
            lemma_losses_agree(
                score,
                plus,
                mean,
                a,
                b,
                valid,
                also,
                order,
                ws[k],
                scores[e],
                others[e],
            );
        }
        assert(scores =~= others);
    }
}

/// Whether `weight_of` gives the same weight for the same arguments.
pub open spec fn one_weight<F: Fn(usize, usize) -> Single>(weight_of: F) -> bool {
    forall|i: usize, n: usize, x: Single, y: Single|
        #![trigger call_ensures(weight_of, (i, n), x), call_ensures(weight_of, (i, n), y)]
        call_ensures(weight_of, (i, n), x) && call_ensures(weight_of, (i, n), y) ==> x == y
}

/// Whether `begin` sets an optimizer up alike for the same runs.
pub open spec fn one_start<S, B: Fn(&TrainingRun) -> S>(
    begin: B,
    alike: spec_fn(S, S) -> bool,
) -> bool {
    forall|a: TrainingRun, b: TrainingRun, s: S, t: S|
        #![trigger crate::train::started(begin, a, s), crate::train::started(begin, b, t)]
        crate::train::started(begin, a, s) && crate::train::started(begin, b, t) && same_run(a, b)
            ==> alike(s, t)
}

/// Whether parameters are asked to be computed from the same.
pub open spec fn same_input(a: ComputeParametersInput, b: ComputeParametersInput) -> bool {
    &&& crate::review::views(a.train_set@) == crate::review::views(b.train_set@)
    &&& a.enable_short_term == b.enable_short_term
    &&& a.enable_sched_penalties == b.enable_sched_penalties
    &&& a.num_relearning_steps == b.num_relearning_steps
}

proof fn lemma_weights_agree<F: Fn(usize, usize) -> Single>(
    weight_of: F,
    of: Seq<Seq<FSRSReview>>,
    max_seq_len: nat,
    x: Seq<(Single, Seq<FSRSReview>)>,
    y: Seq<(Single, Seq<FSRSReview>)>,
)
    requires
        one_weight(weight_of),
        crate::train::weighed(x, of, weight_of, max_seq_len),
        crate::train::weighed(y, of, weight_of, max_seq_len),
    ensures
        x == y,
{
    let a = choose|all: Seq<(Single, Seq<FSRSReview>)>|
        all.len() == of.len() && (forall|i: int| 0 <= i < of.len() ==> (#[trigger] all[i]).1 == of[i])
            && (forall|i: int|
            0 <= i < of.len() ==> call_ensures(
                weight_of,
                (i as usize, of.len() as usize),
                (#[trigger] all[i]).0,
            )) && x == #[trigger] crate::dataset::no_longer_than(all, max_seq_len);
    let b = choose|all: Seq<(Single, Seq<FSRSReview>)>|
        all.len() == of.len() && (forall|i: int| 0 <= i < of.len() ==> (#[trigger] all[i]).1 == of[i])
            && (forall|i: int|
            0 <= i < of.len() ==> call_ensures(
                weight_of,
                (i as usize, of.len() as usize),
                (#[trigger] all[i]).0,
            )) && y == #[trigger] crate::dataset::no_longer_than(all, max_seq_len);
    assert forall|i: int| 0 <= i < a.len() implies a[i] == b[i] by {
        assert(call_ensures(weight_of, (i as usize, of.len() as usize), a[i].0));
        assert(call_ensures(weight_of, (i as usize, of.len() as usize), b[i].0));
    }
    assert(a =~= b);
}

/// Parameters that are computed again from the same are the same, to the bit, where the
/// functions passed in give the same for the same arguments.
pub proof fn law_computing_again_gives_the_same<F, S, B, R, G, O, N, E, P, D>(
    a: ComputeParametersInput,
    b: ComputeParametersInput,
    keep_outliers: bool,
    weight_of: F,
    begin: B,
    rate: R,
    gradient: G,
    optimize: O,
    report: N,
    score: E,
    plus: P,
    mean: D,
    alike: spec_fn(S, S) -> bool,
    x: Result<Seq<Single>, FSRSError>,
    y: Result<Seq<Single>, FSRSError>,
) where
    F: Fn(usize, usize) -> Single,
    B: Fn(&TrainingRun) -> S,
    R: Fn(u64, Phase, u64, Double, Double) -> Double,
    G: Fn(&TrainingRun, &Vec<Single>, &BatchHost) -> Vec<Single>,
    O: Fn(S, &Vec<Single>, &Vec<Single>, Double) -> (S, Vec<Single>),
    N: Fn(&TrainingRun, usize, usize, usize) -> bool,
    E: Fn(&TrainingRun, &Vec<Single>, &BatchHost) -> Double,
    P: Fn(Double, Double) -> Double,
    D: Fn(&TrainingRun, Double) -> Double,

    requires
        same_input(a, b),
        one_weight(weight_of),
        one_start(begin, alike),
        goes_by_arguments(rate, gradient, optimize, report, score, plus, mean, alike),
        crate::train::computed(
            a,
            keep_outliers,
            weight_of,
            begin,
            rate,
            gradient,
            optimize,
            report,
            score,
            plus,
            mean,
            x,
        ),
        crate::train::computed(
            b,
            keep_outliers,
            weight_of,
            begin,
            rate,
            gradient,
            optimize,
            report,
            score,
            plus,
            mean,
            y,
        ),
    ensures
        x == y,
{
    let of = crate::train::trained_on(a.train_set@, keep_outliers);
    if of.len() >= 64 {
        let (run, start) = choose|run: TrainingRun, start: S| #[trigger]
            crate::train::started(begin, run, start) && crate::train::planned(
                run,
                a,
                keep_outliers,
                weight_of,
            ) && trained(run, start, rate, gradient, optimize, report, score, plus, mean, x);
        let (other, again) = choose|run: TrainingRun, start: S| #[trigger]
            crate::train::started(begin, run, start) && crate::train::planned(
                run,
                b,
                keep_outliers,
                weight_of,
            ) && trained(run, start, rate, gradient, optimize, report, score, plus, mean, y);
        lemma_weights_agree(
            weight_of,
            of,
            1024,
            crate::dataset::weighted(run.items@),
            crate::dataset::weighted(other.items@),
        );
        law_runs_end_alike(
            run,
            other,
            start,
            again,
            rate,
            gradient,
            optimize,
            report,
            score,
            plus,
            mean,
            alike,
            x,
            y,
        );
    }
}

} // verus!
