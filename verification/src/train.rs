//! Training: what is trained on, and what is made of the result.
//!
//! Gradients and losses are computed by the caller.

use crate::batch::BatchHost;
use crate::dataset::{
    prepare_training_data, recency_weighted_fsrs_items, retain_short, WeightedFSRSItem,
};
use crate::double::Double;
use crate::error::FSRSError;
use crate::model::ModelConfig;
use crate::parameters::default_parameters;
use crate::progress::CombinedProgressState;
use crate::review::{normalize_training_set, FSRSItem, FSRSReview};
use crate::run::{can_train, clones, trained};
use crate::schedule::Phase;
use crate::single::Single;
use std::sync::{Arc, Mutex};
use vstd::prelude::*;

verus! {

/// What the optimizer is set to.
#[derive(Clone, Copy, Debug, PartialEq)]
pub struct AdamConfig {
    /// The decay of the mean of the gradient.
    pub beta_1: Single,
    /// The decay of the mean of its square.
    pub beta_2: Single,
    /// What keeps the divisor from 0.
    pub epsilon: Single,
}

/// What training is set to.
#[derive(Clone, Copy, Debug)]
pub struct TrainingConfig {
    /// What the model is set to.
    pub model: ModelConfig,
    /// What the optimizer is set to.
    pub optimizer: AdamConfig,
    /// Whether schedules that grow too fast or start too short are penalised.
    pub enable_sched_penalties: bool,
    /// The number of epochs.
    pub num_epochs: usize,
    /// The number of items in a batch.
    pub batch_size: usize,
    /// The seed of the shuffles.
    pub seed: u64,
    /// The initial learning rate.
    pub learning_rate: Double,
    /// The number of reviews up to which items are trained on.
    pub max_seq_len: usize,
}

/// The configuration that training has, for items of up to `max_seq_len` reviews.
pub open spec fn configured(
    enable_short_term: bool,
    enable_sched_penalties: bool,
    num_relearning_steps: Option<usize>,
    max_seq_len: usize,
) -> TrainingConfig {
    TrainingConfig {
        model: ModelConfig {
            freeze_initial_stability: !enable_short_term,
            initial_stability: None,
            initial_forgetting_curve: None,
            freeze_short_term_stability: !enable_short_term,
            num_relearning_steps: match num_relearning_steps {
                Some(n) => n,
                None => 1,
            },
        },
        optimizer: AdamConfig {
            beta_1: Single { bits: 0x3f0c_cccd },  // 0.55
            beta_2: Single { bits: 0x3f74_9f41 },  // 0.955555
            epsilon: Single { bits: 0x322b_cc77 },  // 1e-8
        },
        enable_sched_penalties,
        num_epochs: 8,
        batch_size: 512,
        seed: 2023,
        learning_rate: Double { bits: 0x3fa7_0a3d_70a3_d70a },  // 0.045
        max_seq_len,
    }
}

impl TrainingConfig {
    /// The configuration that training has, for items of up to `max_seq_len` reviews.
    pub fn new(
        enable_short_term: bool,
        enable_sched_penalties: bool,
        num_relearning_steps: Option<usize>,
        max_seq_len: usize,
    ) -> (r: Self)
        ensures
            r == configured(
                enable_short_term,
                enable_sched_penalties,
                num_relearning_steps,
                max_seq_len,
            ),
    {
        TrainingConfig {
            model: ModelConfig::for_training(enable_short_term, num_relearning_steps),
            optimizer: AdamConfig {
                beta_1: Single::from_bits(0x3f0c_cccd),
                beta_2: Single::from_bits(0x3f74_9f41),
                epsilon: Single::from_bits(0x322b_cc77),
            },
            enable_sched_penalties,
            num_epochs: 8,
            batch_size: 512,
            seed: 2023,
            learning_rate: Double::from_bits(0x3fa7_0a3d_70a3_d70a),
            max_seq_len,
        }
    }

    /// The number of steps in which the learning rate falls, for `total_size` items.
    pub open spec fn iterations_for(self, total_size: int) -> int {
        (total_size / self.batch_size as int + 1) * self.num_epochs
    }

    /// The number of steps in which the learning rate falls, for `total_size` items.
    pub fn iterations(&self, total_size: usize) -> (r: usize)
        requires
            self.batch_size > 0,
            self.iterations_for(total_size as int) <= usize::MAX,
            total_size / self.batch_size < usize::MAX,
        ensures
            r == self.iterations_for(total_size as int),
    {
        let batches: usize = total_size / self.batch_size;
        (batches + 1) * self.num_epochs
    }
}

/// What parameters are computed from.
#[derive(Debug)]
pub struct ComputeParametersInput {
    /// The items to train on, oldest first.
    pub train_set: Vec<FSRSItem>,
    /// Where progress is reported.
    pub progress: Option<Arc<Mutex<CombinedProgressState>>>,
    /// Whether the parameters of short-term memory are trained.
    pub enable_short_term: bool,
    /// Whether schedules that grow too fast or start too short are penalised.
    pub enable_sched_penalties: bool,
    /// The number of relearning steps.
    pub num_relearning_steps: Option<usize>,
}

impl Default for ComputeParametersInput {
    fn default() -> (r: Self)
        ensures
            r.train_set@ == Seq::<FSRSItem>::empty(),
            r.progress is None,
            r.enable_short_term,
            !r.enable_sched_penalties,
            r.num_relearning_steps is None,
    {
        ComputeParametersInput {
            train_set: Vec::new(),
            progress: None,
            enable_short_term: true,
            enable_sched_penalties: false,
            num_relearning_steps: None,
        }
    }
}

impl Clone for ComputeParametersInput {
    /// The same again; progress is reported to the same place.
    fn clone(&self) -> (r: Self)
        ensures
            crate::review::views(r.train_set@) == crate::review::views(self.train_set@),
            r.progress == self.progress,
            r.enable_short_term == self.enable_short_term,
            r.enable_sched_penalties == self.enable_sched_penalties,
            r.num_relearning_steps == self.num_relearning_steps,
    {
        let mut train_set: Vec<FSRSItem> = Vec::with_capacity(self.train_set.len());
        let mut i: usize = 0;
        while i < self.train_set.len()
            invariant
                i <= self.train_set@.len(),
                train_set@.len() == i,
                forall|j: int| 0 <= j < i ==> (#[trigger] train_set@[j])@ == self.train_set@[j]@,
            decreases self.train_set@.len() - i,
        {
            train_set.push(self.train_set[i].clone());
            i += 1;
        }
        assert(crate::review::views(train_set@) =~= crate::review::views(self.train_set@));
        let progress = match &self.progress {
            Some(shared) => Some(shared.clone()),
            None => None,
        };
        ComputeParametersInput {
            train_set,
            progress,
            enable_short_term: self.enable_short_term,
            enable_sched_penalties: self.enable_sched_penalties,
            num_relearning_steps: self.num_relearning_steps,
        }
    }
}

/// The items of a training set without intervals below 0.
pub open spec fn normalized_set(train_set: Seq<FSRSItem>) -> Seq<Seq<FSRSReview>> {
    crate::review::views(train_set).map_values(
        |reviews: Seq<FSRSReview>| crate::review::normalized(reviews),
    )
}

/// The items of a training set that are trained on.
pub open spec fn trained_on(train_set: Seq<FSRSItem>, keep_outliers: bool) -> Seq<Seq<FSRSReview>> {
    if keep_outliers {
        crate::dataset::not_for_initialization(normalized_set(train_set))
    } else {
        crate::dataset::without_outliers(normalized_set(train_set))
    }
}

/// Whether outliers can be looked for in a training set: where they are, the first rating
/// of every item with a long-term review is a rating.
pub open spec fn searchable(train_set: Seq<FSRSItem>, keep_outliers: bool) -> bool {
    keep_outliers || crate::dataset::rated(crate::review::views(train_set))
}

/// Whether `items` are the items `of` with weights that `weight_of` may have computed,
/// those left out that have more than `max_seq_len` reviews.
pub open spec fn weighed<F: Fn(usize, usize) -> Single>(
    items: Seq<(Single, Seq<FSRSReview>)>,
    of: Seq<Seq<FSRSReview>>,
    weight_of: F,
    max_seq_len: nat,
) -> bool {
    exists|all: Seq<(Single, Seq<FSRSReview>)>|
        all.len() == of.len() && (forall|i: int| 0 <= i < of.len() ==> (#[trigger] all[i]).1 == of[i])
            && (forall|i: int|
            0 <= i < of.len() ==> call_ensures(
                weight_of,
                (i as usize, of.len() as usize),
                (#[trigger] all[i]).0,
            )) && items == #[trigger] crate::dataset::no_longer_than(all, max_seq_len)
}

/// A training run that is to be done.
#[derive(Debug)]
pub struct TrainingRun {
    /// What training is set to.
    pub config: TrainingConfig,
    /// The items to train on.
    pub items: Vec<WeightedFSRSItem>,
    /// The items to validate with.
    pub test_items: Vec<WeightedFSRSItem>,
    /// The parameters to start from.
    pub initial_parameters: Vec<Single>,
}

/// What there is to do to compute parameters.
#[derive(Debug)]
pub enum Begun {
    /// Nothing: these are the parameters.
    Finished(Vec<Single>),
    /// A training run.
    Train(TrainingRun),
}

/// The items of a training set that are trained on.
fn training_items(train_set: Vec<FSRSItem>, keep_outliers: bool) -> (r: Vec<FSRSItem>)
    requires
        searchable(train_set@, keep_outliers),
    ensures
        crate::review::views(r@) == trained_on(train_set@, keep_outliers),
{
    let normal = normalize_training_set(train_set);
    proof {
        let given = crate::review::views(train_set@);
        let all = crate::review::views(normal@);
        assert(all == normalized_set(train_set@));
        if !keep_outliers {
            assert forall|i: int| 0 <= i < all.len() && crate::review::long_term_reviews(
                #[trigger] all[i],
            ).len() > 0 implies all[i][0].rating <= 4 by {
                assert(all[i] == crate::review::normalized(given[i]));
                crate::review::law_normalizing_keeps_long_term_reviews(given[i]);
                if given[i].len() == 0 {
                    assert(given[i] =~= given[i].take(0));
                    crate::picking::lemma_filter_none(
                        given[i],
                        |review: FSRSReview| crate::review::long_term(review),
                    );
                }
            }
        }
    }
    let (_, r) = prepare_training_data(normal, keep_outliers);
    r
}

/// The training run on a training set, for items of up to `max_seq_len` reviews.
fn training_run<F: Fn(usize, usize) -> Single>(
    train_set: Vec<FSRSItem>,
    config: TrainingConfig,
    weight_of: F,
) -> (r: TrainingRun)
    requires
        forall|i: usize|
            i < train_set@.len() ==> #[trigger] call_requires(weight_of, (i, train_set.len())),
    ensures
        r.config == config,
        r.initial_parameters@ == crate::parameters::defaults(),
        weighed(
            crate::dataset::weighted(r.items@),
            crate::review::views(train_set@),
            weight_of,
            config.max_seq_len as nat,
        ),
        crate::dataset::weighted(r.test_items@) == crate::dataset::weighted(r.items@),
{
    let ghost of = crate::review::views(train_set@);
    let all = recency_weighted_fsrs_items(train_set, weight_of);
    let ghost w = crate::dataset::weighted(all@);
    let items = retain_short(all, config.max_seq_len);
    proof {
        assert forall|i: int| 0 <= i < of.len() implies (#[trigger] w[i]).1 == of[i] by {
            assert(all@[i].item@ == train_set@[i]@);
        }
        assert forall|i: int| 0 <= i < of.len() implies call_ensures(
            weight_of,
            (i as usize, of.len() as usize),
            (#[trigger] w[i]).0,
        ) by {
            assert(all@[i].weight == w[i].0);
            assert(of.len() as usize == train_set.len());
        }
        assert(crate::dataset::weighted(items@) == crate::dataset::no_longer_than(
            w,
            config.max_seq_len as nat,
        ));
    }
    let test_items = clones(&items);
    TrainingRun { config, items, test_items, initial_parameters: default_parameters() }
}

/// Finds what there is to do to compute parameters: with fewer than 64 items to train on,
/// they are the default ones; otherwise there is a training run, on items of up to 1024
/// reviews.
pub fn begin_compute_parameters<F: Fn(usize, usize) -> Single>(
    input: ComputeParametersInput,
    keep_outliers: bool,
    weight_of: F,
) -> (r: Begun)
    requires
        searchable(input.train_set@, keep_outliers),
        forall|i: usize, n: usize|
            n == trained_on(input.train_set@, keep_outliers).len() && i < n
                ==> #[trigger] call_requires(weight_of, (i, n)),
    ensures
        r is Finished <==> trained_on(input.train_set@, keep_outliers).len() < 64,
        r matches Begun::Finished(p) ==> p@ == crate::parameters::defaults(),
        r matches Begun::Train(run) ==> planned(run, input, keep_outliers, weight_of),
{
    let ComputeParametersInput {
        train_set,
        progress: _,
        enable_short_term,
        enable_sched_penalties,
        num_relearning_steps,
    } = input;
    let items = training_items(train_set, keep_outliers);
    if items.len() < 64 {
        return Begun::Finished(default_parameters());
    }
    let config = TrainingConfig::new(
        enable_short_term,
        enable_sched_penalties,
        num_relearning_steps,
        1024,
    );
    Begun::Train(training_run(items, config, weight_of))
}

/// The training run of a benchmark: on items of up to 64 reviews, however few they are.
pub fn begin_benchmark<F: Fn(usize, usize) -> Single>(
    input: ComputeParametersInput,
    keep_outliers: bool,
    weight_of: F,
) -> (r: TrainingRun)
    requires
        searchable(input.train_set@, keep_outliers),
        forall|i: usize, n: usize|
            n == trained_on(input.train_set@, keep_outliers).len() && i < n
                ==> #[trigger] call_requires(weight_of, (i, n)),
    ensures
        benchmarked(r, input, keep_outliers, weight_of),
{
    let ComputeParametersInput {
        train_set,
        progress: _,
        enable_short_term,
        enable_sched_penalties,
        num_relearning_steps,
    } = input;
    let items = training_items(train_set, keep_outliers);
    let config = TrainingConfig::new(
        enable_short_term,
        enable_sched_penalties,
        num_relearning_steps,
        64,
    );
    training_run(items, config, weight_of)
}

/// Whether `run` is the training run that a benchmark asks for.
pub open spec fn benchmarked<F: Fn(usize, usize) -> Single>(
    run: TrainingRun,
    input: ComputeParametersInput,
    keep_outliers: bool,
    weight_of: F,
) -> bool {
    &&& run.config == configured(
        input.enable_short_term,
        input.enable_sched_penalties,
        input.num_relearning_steps,
        64,
    )
    &&& run.initial_parameters@ == crate::parameters::defaults()
    &&& weighed(
        crate::dataset::weighted(run.items@),
        trained_on(input.train_set@, keep_outliers),
        weight_of,
        64,
    )
    &&& crate::dataset::weighted(run.test_items@) == crate::dataset::weighted(run.items@)
}

/// A number of items with which the steps of a run can be counted. Memory holds fewer.
pub const MOST_ITEMS: u64 = 0x7ff_ffff_ffff_fc00;

/// Whether a training set can be trained on: every item that is trained on has a review,
/// and the steps can be counted.
pub open spec fn trainable(train_set: Seq<FSRSItem>, keep_outliers: bool) -> bool {
    &&& trained_on(train_set, keep_outliers).len() <= MOST_ITEMS
    &&& forall|i: int|
        0 <= i < trained_on(train_set, keep_outliers).len() ==> (#[trigger] trained_on(
            train_set,
            keep_outliers,
        )[i]).len() > 0
}

proof fn lemma_picked<A>(s: Seq<A>, wanted: spec_fn(A) -> bool, i: int)
    requires
        0 <= i < s.filter(wanted).len(),
    ensures
        wanted(s.filter(wanted)[i]),
        s.contains(s.filter(wanted)[i]),
        s.filter(wanted).len() <= s.len(),
    decreases s.len(),
{
    broadcast use vstd::seq_lib::group_filter_ensures;

    reveal(Seq::filter);
    let shorter = s.drop_last();
    if i < shorter.filter(wanted).len() {
        lemma_picked(shorter, wanted, i);
        let k = choose|k: int| 0 <= k < shorter.len() && shorter[k] == shorter.filter(wanted)[i];
        assert(s[k] == s.filter(wanted)[i]);
    } else {
        assert(s[s.len() - 1] == s.filter(wanted)[i]);
    }
}

proof fn lemma_weighed_runs_can_be_done<F: Fn(usize, usize) -> Single>(
    run: TrainingRun,
    of: Seq<Seq<FSRSReview>>,
    weight_of: F,
    max_seq_len: nat,
)
    requires
        run.config.batch_size == 512,
        run.config.num_epochs == 8,
        weighed(crate::dataset::weighted(run.items@), of, weight_of, max_seq_len),
        crate::dataset::weighted(run.test_items@) == crate::dataset::weighted(run.items@),
        max_seq_len <= 1024,
        of.len() <= MOST_ITEMS,
        forall|i: int| 0 <= i < of.len() ==> (#[trigger] of[i]).len() > 0,
    ensures
        crate::run::can_run(run),
{
    broadcast use vstd::seq_lib::group_filter_ensures;

    let items = crate::dataset::weighted(run.items@);
    let all = choose|all: Seq<(Single, Seq<FSRSReview>)>|
        all.len() == of.len() && (forall|i: int| 0 <= i < of.len() ==> (#[trigger] all[i]).1 == of[i])
            && (forall|i: int|
            0 <= i < of.len() ==> call_ensures(
                weight_of,
                (i as usize, of.len() as usize),
                (#[trigger] all[i]).0,
            )) && items == #[trigger] crate::dataset::no_longer_than(all, max_seq_len);
    let short = |item: (Single, Seq<FSRSReview>)| item.1.len() <= max_seq_len;
    assert forall|c: int| 0 <= c < items.len() implies 0 < (#[trigger] items[c]).1.len() <= 1024 by {
        lemma_picked(all, short, c);
        let k = choose|k: int| 0 <= k < all.len() && all[k] == all.filter(short)[c];
        assert(all[k].1 == of[k]);
    }
    let histories = crate::batch::histories(items);
    let columns = if 512 < items.len() {
        512
    } else {
        items.len()
    };
    assert forall|c: int| 0 <= c < histories.len() implies (#[trigger] histories[c]).len() * columns
        <= usize::MAX by {
        assert(histories[c].len() == items[c].1.len() - 1);
        assert(histories[c].len() * columns <= 1023 * 512) by (nonlinear_arith)
            requires
                histories[c].len() <= 1023,
                columns <= 512,
        ;
    }
    assert(items.len() <= of.len());
    assert(items.len() == run.items.len());
}

/// Never says to stop.
pub fn never(run: &TrainingRun, epoch: usize, iteration: usize, batches: usize) -> (r: bool)
    ensures
        !r,
{
    false
}

/// Whether `begin` may give `start` as the state of the optimizer at the start of a run.
pub open spec fn started<S, B: Fn(&TrainingRun) -> S>(begin: B, run: TrainingRun, start: S) -> bool {
    call_ensures(begin, (&run,), start)
}

/// Whether a benchmark may give `r`: what its training run ends with, which nothing
/// interrupts.
pub open spec fn measured<F, S, B, R, G, O, E, P, D>(
    input: ComputeParametersInput,
    keep_outliers: bool,
    weight_of: F,
    begin: B,
    rate: R,
    gradient: G,
    optimize: O,
    score: E,
    plus: P,
    mean: D,
    r: Seq<Single>,
) -> bool where
    F: Fn(usize, usize) -> Single,
    B: Fn(&TrainingRun) -> S,
    R: Fn(u64, Phase, u64, Double, Double) -> Double,
    G: Fn(&TrainingRun, &Vec<Single>, &BatchHost) -> Vec<Single>,
    O: Fn(S, &Vec<Single>, &Vec<Single>, Double) -> (S, Vec<Single>),
    E: Fn(&TrainingRun, &Vec<Single>, &BatchHost) -> Double,
    P: Fn(Double, Double) -> Double,
    D: Fn(&TrainingRun, Double) -> Double,
 {
    exists|run: TrainingRun, start: S| #[trigger]
        started(begin, run, start) && benchmarked(run, input, keep_outliers, weight_of) && trained(
            run,
            start,
            rate,
            gradient,
            optimize,
            never,
            score,
            plus,
            mean,
            Ok::<Seq<Single>, FSRSError>(r),
        )
}

/// Trains on items of up to 64 reviews, however few they are, and gives what training
/// gave. The functions are what they are for `compute_parameters`.
pub fn benchmark<F, S, B, R, G, O, E, P, D>(
    input: ComputeParametersInput,
    keep_outliers: bool,
    weight_of: F,
    begin: &B,
    rate: &R,
    gradient: &G,
    optimize: &O,
    score: &E,
    plus: &P,
    mean: &D,
) -> (r: Vec<Single>) where
    F: Fn(usize, usize) -> Single,
    B: Fn(&TrainingRun) -> S,
    R: Fn(u64, Phase, u64, Double, Double) -> Double,
    G: Fn(&TrainingRun, &Vec<Single>, &BatchHost) -> Vec<Single>,
    O: Fn(S, &Vec<Single>, &Vec<Single>, Double) -> (S, Vec<Single>),
    E: Fn(&TrainingRun, &Vec<Single>, &BatchHost) -> Double,
    P: Fn(Double, Double) -> Double,
    D: Fn(&TrainingRun, Double) -> Double,

    requires
        searchable(input.train_set@, keep_outliers),
        trainable(input.train_set@, keep_outliers),
        forall|i: usize, n: usize|
            n == trained_on(input.train_set@, keep_outliers).len() && i < n
                ==> #[trigger] call_requires(weight_of, (i, n)),
        forall|run: TrainingRun| #[trigger]
            benchmarked(run, input, keep_outliers, weight_of) ==> call_requires(*begin, (&run,))
                && can_train::<S, R, G, O, _, E, P, D>(
                run,
                *rate,
                *gradient,
                *optimize,
                never,
                *score,
                *plus,
                *mean,
            ),
    ensures
        measured(
            input,
            keep_outliers,
            weight_of,
            *begin,
            *rate,
            *gradient,
            *optimize,
            *score,
            *plus,
            *mean,
            r@,
        ),
        r@.len() == 34,
        crate::parameters::in_ranges(r@),
{
    let run = begin_benchmark(input, keep_outliers, weight_of);
    proof {
        lemma_weighed_runs_can_be_done(
            run,
            trained_on(input.train_set@, keep_outliers),
            weight_of,
            64,
        );
    }
    let start = begin(&run);
    assert(started(*begin, run, start));
    let ended = crate::run::train(&run, start, rate, gradient, optimize, &never, score, plus, mean);
    proof {
        lemma_nothing_interrupts(run, start, *rate, *gradient, *optimize, *score, *plus, *mean, ended);
    }
    ended.unwrap()
}

proof fn lemma_nothing_interrupts<S, R, G, O, E, P, D>(
    run: TrainingRun,
    start: S,
    rate: R,
    gradient: G,
    optimize: O,
    score: E,
    plus: P,
    mean: D,
    r: Result<Vec<Single>, FSRSError>,
) where
    R: Fn(u64, Phase, u64, Double, Double) -> Double,
    G: Fn(&TrainingRun, &Vec<Single>, &BatchHost) -> Vec<Single>,
    O: Fn(S, &Vec<Single>, &Vec<Single>, Double) -> (S, Vec<Single>),
    E: Fn(&TrainingRun, &Vec<Single>, &BatchHost) -> Double,
    P: Fn(Double, Double) -> Double,
    D: Fn(&TrainingRun, Double) -> Double,

    requires
        trained(
            run,
            start,
            rate,
            gradient,
            optimize,
            never,
            score,
            plus,
            mean,
            crate::run::outcome(r),
        ),
    ensures
        r is Ok,
{
}

/// Whether a parameter is infinite.
pub open spec fn infinite(parameter: Single) -> bool {
    !parameter.nan() && !parameter.finite()
}

/// What computing parameters gives, from what training gave: its error, or an error where
/// a parameter is infinite, or else the parameters.
pub open spec fn concluded(
    trained: Result<Vec<Single>, FSRSError>,
    r: Result<Vec<Single>, FSRSError>,
) -> bool {
    match trained {
        Err(e) => r == Err::<Vec<Single>, FSRSError>(e),
        Ok(p) => if exists|i: int| 0 <= i < p@.len() && infinite(#[trigger] p@[i]) {
            r == Err::<Vec<Single>, FSRSError>(FSRSError::InvalidInput)
        } else {
            r == Ok::<Vec<Single>, FSRSError>(p)
        },
    }
}

/// What computing parameters gives, from what training gave.
pub fn conclude(trained: Result<Vec<Single>, FSRSError>) -> (r: Result<Vec<Single>, FSRSError>)
    ensures
        concluded(trained, r),
{
    let parameters = match trained {
        Ok(p) => p,
        Err(e) => {
            return Err(e);
        },
    };
    let mut i: usize = 0;
    while i < parameters.len()
        invariant
            i <= parameters@.len(),
            trained == Ok::<Vec<Single>, FSRSError>(parameters),
            forall|j: int| 0 <= j < i ==> !infinite(#[trigger] parameters@[j]),
        decreases parameters@.len() - i,
    {
        if parameters[i].is_infinite() {
            assert(infinite(parameters@[i as int]));
            return Err(FSRSError::InvalidInput);
        }
        i += 1;
    }
    Ok(parameters)
}

/// Whether computing parameters may give `r`: the default ones where there are fewer than
/// 64 items to train on, and otherwise what the training run ends with.
pub open spec fn computed<F, S, B, R, G, O, N, E, P, D>(
    input: ComputeParametersInput,
    keep_outliers: bool,
    weight_of: F,
    begin: B,
    rate: R,
    gradient: G,
    optimize: O,
    report: N,
    score: E,
    plus: P,
    mean: D,
    r: Result<Seq<Single>, FSRSError>,
) -> bool where
    F: Fn(usize, usize) -> Single,
    B: Fn(&TrainingRun) -> S,
    R: Fn(u64, Phase, u64, Double, Double) -> Double,
    G: Fn(&TrainingRun, &Vec<Single>, &BatchHost) -> Vec<Single>,
    O: Fn(S, &Vec<Single>, &Vec<Single>, Double) -> (S, Vec<Single>),
    N: Fn(&TrainingRun, usize, usize, usize) -> bool,
    E: Fn(&TrainingRun, &Vec<Single>, &BatchHost) -> Double,
    P: Fn(Double, Double) -> Double,
    D: Fn(&TrainingRun, Double) -> Double,
 {
    if trained_on(input.train_set@, keep_outliers).len() < 64 {
        r == Ok::<Seq<Single>, FSRSError>(crate::parameters::defaults())
    } else {
        exists|run: TrainingRun, start: S| #[trigger]
            started(begin, run, start) && planned(run, input, keep_outliers, weight_of) && trained(
                run,
                start,
                rate,
                gradient,
                optimize,
                report,
                score,
                plus,
                mean,
                r,
            )
    }
}

/// Computes parameters from a training set. `weight_of` gives the weight of an item from
/// its place and the number of items. `begin` sets an optimizer up for a run, and gives its
/// state; the other functions are what they are for `run::train`. None of these is called
/// where there are fewer than 64 items to train on.
///
/// The result is 34 parameters, each a number in its range and all of them in order, as
/// clipping leaves them. The only error is that `report` stopped the run.
pub fn compute_parameters<F, S, B, R, G, O, N, E, P, D>(
    input: ComputeParametersInput,
    keep_outliers: bool,
    weight_of: F,
    begin: &B,
    rate: &R,
    gradient: &G,
    optimize: &O,
    report: &N,
    score: &E,
    plus: &P,
    mean: &D,
) -> (r: Result<Vec<Single>, FSRSError>) where
    F: Fn(usize, usize) -> Single,
    B: Fn(&TrainingRun) -> S,
    R: Fn(u64, Phase, u64, Double, Double) -> Double,
    G: Fn(&TrainingRun, &Vec<Single>, &BatchHost) -> Vec<Single>,
    O: Fn(S, &Vec<Single>, &Vec<Single>, Double) -> (S, Vec<Single>),
    N: Fn(&TrainingRun, usize, usize, usize) -> bool,
    E: Fn(&TrainingRun, &Vec<Single>, &BatchHost) -> Double,
    P: Fn(Double, Double) -> Double,
    D: Fn(&TrainingRun, Double) -> Double,

    requires
        searchable(input.train_set@, keep_outliers),
        trained_on(input.train_set@, keep_outliers).len() >= 64 ==> trainable(
            input.train_set@,
            keep_outliers,
        ),
        forall|i: usize, n: usize|
            n == trained_on(input.train_set@, keep_outliers).len() && i < n
                ==> #[trigger] call_requires(weight_of, (i, n)),
        forall|run: TrainingRun| #[trigger]
            planned(run, input, keep_outliers, weight_of) ==> call_requires(*begin, (&run,))
                && can_train::<S, R, G, O, N, E, P, D>(
                run,
                *rate,
                *gradient,
                *optimize,
                *report,
                *score,
                *plus,
                *mean,
            ),
    ensures
        computed(
            input,
            keep_outliers,
            weight_of,
            *begin,
            *rate,
            *gradient,
            *optimize,
            *report,
            *score,
            *plus,
            *mean,
            crate::run::outcome(r),
        ),
        r matches Ok(p) ==> p@.len() == 34 && crate::parameters::in_ranges(p@)
            && crate::parameters::clipped(p@) == p@ && forall|i: int|
            0 <= i < 34 ==> (#[trigger] p@[i]).finite(),
        r matches Err(e) ==> e == FSRSError::Interrupted,
{
    match begin_compute_parameters(input, keep_outliers, weight_of) {
        Begun::Finished(parameters) => {
            proof {
                crate::parameters::law_defaults_are_in_range();
                crate::parameters::law_clipped_parameters_are_in_range(parameters@);
            }
            Ok(parameters)
        },
        Begun::Train(run) => {
            proof {
                lemma_weighed_runs_can_be_done(
                    run,
                    trained_on(input.train_set@, keep_outliers),
                    weight_of,
                    1024,
                );
            }
            let start = begin(&run);
            assert(started(*begin, run, start));
            let ended = crate::run::train(&run, start, rate, gradient, optimize, report, score, plus, mean);
            proof {
                if ended is Ok {
                    let p = ended->Ok_0;
                    crate::parameters::law_clipped_parameters_are_in_range(p@);
                    assert forall|i: int| 0 <= i < p@.len() implies !infinite(#[trigger] p@[i]) by {
                        assert(crate::parameters::clipped(p@)[i].finite());
                    }
                }
            }
            conclude(ended)
        },
    }
}

/// Whether `run` is the training run that computing parameters asks for.
pub open spec fn planned<F: Fn(usize, usize) -> Single>(
    run: TrainingRun,
    input: ComputeParametersInput,
    keep_outliers: bool,
    weight_of: F,
) -> bool {
    &&& run.config == configured(
        input.enable_short_term,
        input.enable_sched_penalties,
        input.num_relearning_steps,
        1024,
    )
    &&& run.initial_parameters@ == crate::parameters::defaults()
    &&& weighed(
        crate::dataset::weighted(run.items@),
        trained_on(input.train_set@, keep_outliers),
        weight_of,
        1024,
    )
    &&& crate::dataset::weighted(run.test_items@) == crate::dataset::weighted(run.items@)
}

/// What is trained on. Where outliers are kept, all items but those with exactly one
/// long-term review; where they are taken out, all items but those whose group is an outlier
/// among the ones with exactly one. Each is normalised, and they keep their order.
pub proof fn law_what_is_trained_on(train_set: Seq<FSRSItem>, item: Seq<FSRSReview>)
    ensures
        ({
            let given = crate::review::views(train_set).map_values(
                |reviews: Seq<FSRSReview>| crate::review::normalized(reviews),
            );
            let once = crate::order::count(
                item.len(),
                |i: int|
                    !item[i].delta_t.nan() && item[i].delta_t.value()
                        >= vstd::arithmetic::power2::pow2(149),
            ) == 1;
            let single = given.filter(
                |other: Seq<FSRSReview>| crate::review::long_term_reviews(other).len() == 1,
            );
            &&& trained_on(train_set, true).contains(item) <==> given.contains(item) && !once
            &&& trained_on(train_set, false).contains(item) <==> given.contains(item)
                && crate::outlier::stays(single, item)
            &&& trained_on(train_set, false).len() <= train_set.len()
            &&& trained_on(train_set, true).len() <= train_set.len()
        }),
{
    let given = normalized_set(train_set);
    crate::dataset::law_what_is_set_apart(given, item);
    crate::dataset::law_outliers_alone_are_lost(given, item);
    assert(crate::dataset::for_initialization(given) == given.filter(
        |other: Seq<FSRSReview>| crate::review::long_term_reviews(other).len() == 1,
    )) by {
        crate::picking::lemma_filters_agree(
            given,
            |item: Seq<FSRSReview>| crate::dataset::shows_initial_stability(item),
            |other: Seq<FSRSReview>| crate::review::long_term_reviews(other).len() == 1,
        );
    }
}

/// What training is set to, whatever is asked for: 8 epochs of batches of 512, seed 2023, an
/// optimizer and a rate that do not change; both kinds of freezing go by whether short-term
/// memory is on, and one relearning step stands for none given.
pub proof fn law_what_training_is_set_to(
    enable_short_term: bool,
    enable_sched_penalties: bool,
    num_relearning_steps: Option<usize>,
    max_seq_len: usize,
)
    ensures
        ({
            let c = configured(
                enable_short_term,
                enable_sched_penalties,
                num_relearning_steps,
                max_seq_len,
            );
            &&& c.num_epochs == 8
            &&& c.batch_size == 512
            &&& c.seed == 2023
            &&& c.max_seq_len == max_seq_len
            &&& c.enable_sched_penalties == enable_sched_penalties
            &&& c.model.freeze_initial_stability == !enable_short_term
            &&& c.model.freeze_short_term_stability == !enable_short_term
            &&& c.model.initial_stability is None
            &&& c.model.initial_forgetting_curve is None
            &&& num_relearning_steps is None ==> c.model.num_relearning_steps == 1
            &&& num_relearning_steps is Some ==> c.model.num_relearning_steps
                == num_relearning_steps->0
        }),
{
}

/// Every item of a run is one that is trained on and is no longer than the limit, with the
/// weight that belongs to its place among all that are trained on; and each of those is in
/// the run unless it is longer.
pub proof fn law_weights_go_by_place<F: Fn(usize, usize) -> Single>(
    items: Seq<(Single, Seq<FSRSReview>)>,
    of: Seq<Seq<FSRSReview>>,
    weight_of: F,
    max_seq_len: nat,
)
    requires
        weighed(items, of, weight_of, max_seq_len),
    ensures
        items.len() <= of.len(),
        forall|j: int|
            0 <= j < items.len() ==> (#[trigger] items[j]).1.len() <= max_seq_len && exists|i: int|
                #![trigger of[i]]
                0 <= i < of.len() && items[j].1 == of[i] && call_ensures(
                    weight_of,
                    (i as usize, of.len() as usize),
                    items[j].0,
                ),
        forall|i: int|
            0 <= i < of.len() && (#[trigger] of[i]).len() <= max_seq_len ==> exists|j: int|
                #![trigger items[j]]
                0 <= j < items.len() && items[j].1 == of[i] && call_ensures(
                    weight_of,
                    (i as usize, of.len() as usize),
                    items[j].0,
                ),
{
    let all = choose|all: Seq<(Single, Seq<FSRSReview>)>|
        all.len() == of.len() && (forall|i: int| 0 <= i < of.len() ==> (#[trigger] all[i]).1 == of[i])
            && (forall|i: int|
            0 <= i < of.len() ==> call_ensures(
                weight_of,
                (i as usize, of.len() as usize),
                (#[trigger] all[i]).0,
            )) && items == #[trigger] crate::dataset::no_longer_than(all, max_seq_len);
    crate::picking::lemma_filter_picks(
        all,
        |item: (Single, Seq<FSRSReview>)| item.1.len() <= max_seq_len,
    );
    assert forall|j: int| 0 <= j < items.len() implies (#[trigger] items[j]).1.len() <= max_seq_len
        && exists|i: int|
        #![trigger of[i]]
        0 <= i < of.len() && items[j].1 == of[i] && call_ensures(
            weight_of,
            (i as usize, of.len() as usize),
            items[j].0,
        ) by {
        assert(items.contains(items[j]));
        crate::dataset::law_what_is_too_long(all, max_seq_len, items[j]);
        let i = choose|i: int| 0 <= i < all.len() && all[i] == items[j];
        assert(all[i].1 == of[i]);
    }
    assert forall|i: int| 0 <= i < of.len() && (#[trigger] of[i]).len() <= max_seq_len implies exists|
        j: int,
    |
        #![trigger items[j]]
        0 <= j < items.len() && items[j].1 == of[i] && call_ensures(
            weight_of,
            (i as usize, of.len() as usize),
            items[j].0,
        ) by {
        assert(all[i].1 == of[i]);
        assert(all.contains(all[i]));
        crate::dataset::law_what_is_too_long(all, max_seq_len, all[i]);
        assert(items.contains(all[i]));
        let j = choose|j: int| 0 <= j < items.len() && items[j] == all[i];
        assert(items[j] == all[i]);
    }
}

/// The runs that are planned: to compute parameters, on items of up to 1024 reviews, and for
/// a benchmark, on items of up to 64. Both start from the default parameters and validate
/// with the items that they train on.
pub proof fn law_what_is_planned<F: Fn(usize, usize) -> Single>(
    run: TrainingRun,
    input: ComputeParametersInput,
    keep_outliers: bool,
    weight_of: F,
)
    ensures
        planned(run, input, keep_outliers, weight_of) || benchmarked(
            run,
            input,
            keep_outliers,
            weight_of,
        ) ==> {
            &&& run.initial_parameters@.len() == 34
            &&& forall|i: int|
                0 <= i < 34 ==> (#[trigger] run.initial_parameters@[i]).bits
                    == crate::parameters::DEFAULT_PARAMETERS[i]
            &&& crate::dataset::weighted(run.test_items@) == crate::dataset::weighted(run.items@)
            &&& run.config.num_epochs == 8 && run.config.batch_size == 512 && run.config.seed
                == 2023
            &&& run.config.model.freeze_initial_stability == !input.enable_short_term
            &&& run.config.model.freeze_short_term_stability == !input.enable_short_term
            &&& run.config.enable_sched_penalties == input.enable_sched_penalties
        },
        planned(run, input, keep_outliers, weight_of) ==> weighed(
            crate::dataset::weighted(run.items@),
            trained_on(input.train_set@, keep_outliers),
            weight_of,
            1024,
        ),
        benchmarked(run, input, keep_outliers, weight_of) ==> weighed(
            crate::dataset::weighted(run.items@),
            trained_on(input.train_set@, keep_outliers),
            weight_of,
            64,
        ),
{
}

/// The number of steps in which the rate falls: as many as there are full batches and one
/// more, for each epoch.
pub proof fn law_steps_in_which_the_rate_falls(config: TrainingConfig, total_size: int)
    requires
        config.batch_size > 0,
        total_size >= 0,
    ensures
        config.iterations_for(total_size + config.batch_size) == config.iterations_for(total_size)
            + config.num_epochs,
        total_size < config.batch_size ==> config.iterations_for(total_size) == config.num_epochs,
{
    let b = config.batch_size as int;
    let q = total_size / b;
    vstd::arithmetic::div_mod::lemma_div_plus_one(total_size, b);
    assert((q + 1 + 1) * config.num_epochs == (q + 1) * config.num_epochs + config.num_epochs)
        by (nonlinear_arith);
    if total_size < b {
        vstd::arithmetic::div_mod::lemma_basic_div(total_size, b);
        assert((0 + 1) * config.num_epochs == config.num_epochs) by (nonlinear_arith);
    }
}

/// Parameters are refused for being infinite, and for nothing else; not being a number does
/// not refuse them.
pub proof fn law_what_is_concluded(
    given: Result<Vec<Single>, FSRSError>,
    r: Result<Vec<Single>, FSRSError>,
)
    requires
        concluded(given, r),
    ensures
        given matches Err(e) ==> r == Err::<Vec<Single>, FSRSError>(e),
        given matches Ok(p) ==> {
            let bad = exists|i: int| 0 <= i < p@.len() && (#[trigger] p@[i]).fields() == 0x7f80_0000;
            &&& bad ==> r == Err::<Vec<Single>, FSRSError>(FSRSError::InvalidInput)
            &&& !bad ==> r == Ok::<Vec<Single>, FSRSError>(p)
        },
{
    if let Ok(p) = given {
        if exists|i: int| 0 <= i < p@.len() && (#[trigger] p@[i]).fields() == 0x7f80_0000 {
            let i = choose|i: int| 0 <= i < p@.len() && (#[trigger] p@[i]).fields() == 0x7f80_0000;
            assert(infinite(p@[i]));
        } else if exists|i: int| 0 <= i < p@.len() && infinite(#[trigger] p@[i]) {
            let i = choose|i: int| 0 <= i < p@.len() && infinite(#[trigger] p@[i]);
            assert(p@[i].fields() == 0x7f80_0000);
        }
    }
}

} // verus!
