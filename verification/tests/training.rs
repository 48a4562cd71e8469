use fsrs::double::Double;
use fsrs::dual::{dual_weights, Dual35};
use fsrs::error::FSRSError;
use fsrs::intervals::{
    fastest_growth, interval_growth_penalty, keep_finite, schedule, schedule_penalty_value_and_grad,
    short_interval_penalty, short_penalty,
};
use fsrs::penalty::{
    freeze, l2_penalty, l2_penalty_value_and_grad, l2_size, penalizes_schedule, schedule_penalty,
};
use fsrs::progress::ProgressState;
use fsrs::batch::{build_host_batches, BatchHost};
use fsrs::dataset::WeightedFSRSItem;
use fsrs::review::{FSRSItem, FSRSReview};
use fsrs::losses::batch_loss_and_grad;
use fsrs::objective::{objective, step_gradient};
use fsrs::parameters::clip_parameters;
use fsrs::run::{step_parameters, train, validation_loss};
use fsrs::schedule::{CosineAnnealingLR, Phase};
use fsrs::single::Single;
use fsrs::train::{
    begin_benchmark, begin_compute_parameters, benchmark, compute_parameters, conclude, Begun,
    ComputeParametersInput, TrainingConfig, TrainingRun,
};
use fsrs::trainer::{Action, Trainer};
use fsrs::CombinedProgressState;
use rand::rngs::StdRng;
use rand::seq::SliceRandom;
use rand::SeedableRng;
use std::cell::{Cell, RefCell};

fn single(x: f32) -> Single {
    Single::from_bits(x.to_bits())
}

fn number(x: Single) -> f32 {
    f32::from_bits(x.to_bits())
}

fn double(x: f64) -> Double {
    Double::from_bits(x.to_bits())
}

fn value(x: Double) -> f64 {
    f64::from_bits(x.to_bits())
}

fn item(reviews: &[(u32, f32)]) -> FSRSItem {
    FSRSItem {
        reviews: reviews
            .iter()
            .map(|&(rating, delta_t)| FSRSReview { rating, delta_t: single(delta_t) })
            .collect(),
    }
}

fn input(n: usize) -> ComputeParametersInput {
    ComputeParametersInput {
        train_set: (0..n).map(|_| item(&[(3, 0.0), (3, 4.0), (3, 9.0)])).collect(),
        ..ComputeParametersInput::default()
    }
}

#[test]
fn input_has_short_term_memory_on_by_default() {
    let input = ComputeParametersInput::default();
    assert!(input.train_set.is_empty());
    assert!(input.progress.is_none());
    assert!(input.enable_short_term);
    assert!(!input.enable_sched_penalties);
    assert_eq!(input.num_relearning_steps, None);
}

#[test]
fn few_items_give_the_defaults() {
    for n in [0, 7, 8, 63] {
        match begin_compute_parameters(input(n), false, |_, _| single(1.0)) {
            Begun::Finished(p) => assert_eq!(p, fsrs::parameters::default_parameters()),
            Begun::Train(_) => panic!("{n} items are trained on"),
        }
    }
}

#[test]
fn enough_items_are_trained_on() {
    let mut given = input(64);
    given.train_set[5].reviews[1].delta_t = single(-2.0);
    given.train_set.push(item(&vec![(3, 0.0); 1025]));
    given.enable_short_term = false;
    given.enable_sched_penalties = true;
    let run = match begin_compute_parameters(given, true, |i, n| single((i + n) as f32)) {
        Begun::Train(run) => run,
        Begun::Finished(_) => panic!("not trained"),
    };
    assert_eq!(run.items.len(), 63);
    assert_eq!(run.items[0].weight, single(64.0));
    assert_eq!(run.items[62].weight, single(62.0 + 64.0));
    assert_eq!(run.test_items.len(), 63);
    assert_eq!(run.test_items[62].weight, run.items[62].weight);
    assert_eq!(run.initial_parameters, fsrs::parameters::default_parameters());
    assert_eq!(run.config.max_seq_len, 1024);
    assert_eq!(run.config.num_epochs, 8);
    assert_eq!(run.config.batch_size, 512);
    assert_eq!(run.config.seed, 2023);
    assert_eq!(run.config.learning_rate, double(0.045));
    assert_eq!(run.config.optimizer.beta_1, single(0.55));
    assert_eq!(run.config.optimizer.beta_2, single(0.955555));
    assert_eq!(run.config.optimizer.epsilon, single(1e-8));
    assert!(run.config.enable_sched_penalties);
    assert!(run.config.model.freeze_initial_stability);
    assert!(run.config.model.freeze_short_term_stability);
    assert_eq!(run.config.model.num_relearning_steps, 1);
}

#[test]
fn items_with_one_long_term_review_are_kept_for_initialisation() {
    let mut given = input(70);
    given.train_set[5].reviews[1].delta_t = single(-2.0);
    match begin_compute_parameters(given, true, |_, _| single(1.0)) {
        Begun::Train(run) => assert_eq!(run.items.len(), 69),
        Begun::Finished(_) => panic!("not trained"),
    }
}

#[test]
fn benchmarks_train_on_short_items_however_few() {
    let mut given = input(3);
    given.train_set.push(item(&vec![(3, 0.0); 65]));
    given.num_relearning_steps = Some(2);
    let run = begin_benchmark(given, false, |_, _| single(1.0));
    assert_eq!(run.items.len(), 3);
    assert_eq!(run.config.max_seq_len, 64);
    assert_eq!(run.config.model.num_relearning_steps, 2);
    let steps = Cell::new(0);
    let optimize = |n: usize, w: &Vec<Single>, g: &Vec<Single>, lr: Double| {
        steps.set(steps.get() + 1);
        descend(n, w, g, lr)
    };
    let begin = |run: &TrainingRun| run.items.len();
    let weight = |_: usize, _: usize| single(1.0);
    let trained =
        benchmark(input(3), false, weight, &begin, &halved, &flat, &optimize, &falling, &plus, &mean);
    assert_eq!(trained.len(), 34);
    assert_eq!(trained, clip_parameters(&trained));
    assert_ne!(trained, fsrs::parameters::default_parameters());
    // One batch, in eight epochs.
    assert_eq!(steps.get(), 8);
}

#[test]
fn infinite_parameters_are_an_error() {
    let fine = vec![single(1.0), single(f32::NAN)];
    let same: Vec<u32> = conclude(Ok(fine.clone())).unwrap().iter().map(|p| p.to_bits()).collect();
    assert_eq!(same, fine.iter().map(|p| p.to_bits()).collect::<Vec<u32>>());
    let bad = vec![single(1.0), single(f32::NEG_INFINITY)];
    assert_eq!(conclude(Ok(bad)), Err(FSRSError::InvalidInput));
    assert_eq!(conclude(Err(FSRSError::Interrupted)), Err(FSRSError::Interrupted));
}

#[test]
fn parameters_are_what_training_gives() {
    let begin = |run: &TrainingRun| run.items.len();
    let weight = |_: usize, _: usize| single(1.0);
    let compute = |n: usize| {
        compute_parameters(
            input(n), true, weight, &begin, &halved, &flat, &descend, &go_on, &falling, &plus, &mean,
        )
    };
    let trained = compute(64).unwrap();
    assert_eq!(trained.len(), 34);
    assert!(trained.iter().all(|p| number(*p).is_finite()));
    assert_eq!(trained, clip_parameters(&trained));
    // Each of the eight steps takes its rate off every parameter that it may.
    let fallen = (0..8).fold(6.1686f32, |p, k| p - (0.045 / 2f64.powi(k)) as f32);
    assert_eq!(number(trained[4]), fallen);
    // Computing again gives the same.
    assert_eq!(compute(64).unwrap(), trained);
    assert_eq!(compute(63), Ok(fsrs::parameters::default_parameters()));
}

#[test]
fn wild_steps_still_give_parameters_in_range() {
    let begin = |run: &TrainingRun| run.items.len();
    let weight = |_: usize, _: usize| single(1.0);
    for wild in [f32::NAN, f32::INFINITY, f32::NEG_INFINITY, 1e30] {
        let jump = |n: usize, w: &Vec<Single>, _: &Vec<Single>, _: Double| {
            (n, vec![single(wild); w.len()])
        };
        let r = compute_parameters(
            input(64), true, weight, &begin, &halved, &flat, &jump, &go_on, &falling, &plus, &mean,
        );
        let p = r.unwrap();
        assert_eq!(p, clip_parameters(&vec![single(wild); 34]));
        assert!(p.iter().all(|x| number(*x).is_finite()));
        assert!((0..3).all(|i| number(p[i]) <= number(p[i + 1])));
        assert!(number(p[25]) <= number(p[26]));
    }
}

#[test]
fn computing_parameters_can_be_stopped() {
    let begin = |run: &TrainingRun| run.items.len();
    let weight = |_: usize, _: usize| single(1.0);
    let stop = |_: &TrainingRun, epoch: usize, iteration: usize, n: usize| {
        assert_eq!((iteration, n), (1, 1));
        epoch == 2
    };
    let r = compute_parameters(
        input(64), true, weight, &begin, &halved, &flat, &descend, &stop, &falling, &plus, &mean,
    );
    assert_eq!(r, Err(FSRSError::Interrupted));
    // There is nothing to stop where there is nothing to train on.
    let r = compute_parameters(
        input(8), true, weight, &begin, &halved, &flat, &descend, &stop, &falling, &plus, &mean,
    );
    assert_eq!(r, Ok(fsrs::parameters::default_parameters()));
}

#[test]
fn rate_falls_for_all_steps_of_a_run() {
    let config = TrainingConfig::new(true, false, None, 1024);
    assert_eq!(config.iterations(0), 8);
    assert_eq!(config.iterations(511), 8);
    assert_eq!(config.iterations(512), 16);
    assert_eq!(config.iterations(1300), 24);
}

fn course(trainer: &mut Trainer, losses: &[f64]) -> (Vec<Vec<usize>>, Vec<bool>) {
    let mut orders: Vec<Vec<usize>> = Vec::new();
    let mut better: Vec<bool> = Vec::new();
    let mut current: Vec<usize> = Vec::new();
    loop {
        match trainer.due() {
            Action::Train { batch, epoch, iteration } => {
                assert_eq!(epoch, orders.len() + 1);
                current.push(batch);
                assert_eq!(iteration, current.len());
                trainer.trained(false);
            }
            Action::Validate { epoch } => {
                orders.push(std::mem::take(&mut current));
                assert_eq!(epoch, orders.len());
                better.push(trainer.validated(double(losses[epoch - 1])));
            }
            Action::Finish { interrupted } => {
                assert!(!interrupted);
                return (orders, better);
            }
        }
    }
}

#[test]
fn epochs_are_shuffled_from_the_seed() {
    let mut trainer = Trainer::new(2023, 3, 10, 10);
    let valid_order = trainer.valid_order().clone();
    let (orders, _) = course(&mut trainer, &[3.0, 2.0, 1.0]);
    let mut rng = StdRng::seed_from_u64(2023);
    for order in &orders {
        let mut expected: Vec<usize> = (0..10).collect();
        expected.shuffle(&mut rng);
        assert_eq!(order, &expected);
        let mut sorted = order.clone();
        sorted.sort();
        assert_eq!(sorted, (0..10).collect::<Vec<usize>>());
    }
    assert_eq!(orders.len(), 3);
    assert_ne!(orders[0], (0..10).collect::<Vec<usize>>());
    assert_ne!(orders[0], orders[1]);
    assert_eq!(valid_order, orders[0]);
}

#[test]
fn validation_is_shuffled_once() {
    let trainer = Trainer::new(7, 1, 3, 6);
    let mut expected: Vec<usize> = (0..6).collect();
    expected.shuffle(&mut StdRng::seed_from_u64(7));
    assert_eq!(trainer.valid_order(), &expected);
}

#[test]
fn the_first_of_the_smallest_losses_is_the_best() {
    let mut trainer = Trainer::new(1, 6, 2, 2);
    assert_eq!(value(trainer.best_loss()), f64::INFINITY);
    let (_, better) = course(&mut trainer, &[f64::NAN, 0.5, 0.6, 0.4, 0.4, 0.45]);
    assert_eq!(better, vec![false, true, false, true, false, false]);
    assert_eq!(value(trainer.best_loss()), 0.4);
}

#[test]
fn runs_can_be_stopped() {
    let mut trainer = Trainer::new(1, 6, 4, 4);
    trainer.trained(false);
    trainer.trained(true);
    assert_eq!(trainer.due(), Action::Finish { interrupted: true });
}

#[test]
fn runs_without_batches_only_validate() {
    let mut trainer = Trainer::new(1, 2, 0, 0);
    assert_eq!(trainer.due(), Action::Validate { epoch: 1 });
    let (orders, better) = course(&mut trainer, &[f64::NAN, f64::NAN]);
    assert_eq!(orders, vec![Vec::<usize>::new(), Vec::new()]);
    assert_eq!(better, vec![false, false]);
    assert_eq!(Trainer::new(1, 0, 5, 5).due(), Action::Finish { interrupted: false });
}

#[test]
fn learning_rate_goes_through_its_phases() {
    let mut schedule = CosineAnnealingLR::init(3, double(0.5));
    let mut phases: Vec<Option<(Phase, u64)>> = Vec::new();
    for _ in 0..13 {
        let seen = Cell::new(None);
        let lr = schedule.step(&|t_max: u64, phase: Phase, step: u64, init: Double, before: Double| {
            assert_eq!((t_max, value(init)), (3, 0.5));
            seen.set(Some((phase, step)));
            double(value(before) / 2.0)
        });
        assert_eq!(schedule.current_lr, lr);
        phases.push(seen.get());
    }
    assert_eq!(phases[0], None);
    for (step, phase) in phases.iter().enumerate().skip(1) {
        // The float form of the same rule.
        let restart = (step as f64 - 1.0 - 3.0) % (2.0 * 3.0) == 0.0;
        let expected = if restart { Phase::Restart } else { Phase::Ratio };
        assert_eq!(*phase, Some((expected, step as u64)));
    }
    assert_eq!(phases[4], Some((Phase::Restart, 4)));
    assert_eq!(phases[10], Some((Phase::Restart, 10)));
}

#[test]
fn learning_rate_can_be_recorded() {
    let mut schedule = CosineAnnealingLR::init(5, double(0.5));
    assert_eq!(schedule.to_record(), 0);
    for _ in 0..4 {
        schedule.step(&|_: u64, _: Phase, _: u64, _: Double, before: Double| before);
    }
    assert_eq!(schedule.to_record(), 3);
    assert_eq!(schedule.load_record(3), schedule);
    assert_eq!(CosineAnnealingLR::init(0, double(0.5)).phase(), Phase::Initial);
    assert_eq!(CosineAnnealingLR::init(0, double(0.5)).load_record(2).phase(), Phase::Ratio);
}

#[test]
fn progress_is_noted_and_may_stop_a_run() {
    let shared = CombinedProgressState::new_shared();
    let mut state = shared.lock().unwrap();
    state.start(8, 100);
    assert_eq!(state.splits.len(), 1);
    assert_eq!((state.current(), state.total()), (0, 800));
    let now = ProgressState { epoch: 2, epoch_total: 8, items_processed: 3, items_total: 10 };
    assert!(!state.render_train(0, now));
    assert_eq!((state.current(), state.total()), (13, 80));
    state.want_abort = true;
    assert!(state.render_train(0, now));
    assert!(!state.finished());
    state.finish();
    assert!(state.finished());
}

#[test]
fn several_runs_are_added_up() {
    let mut state = CombinedProgressState::default();
    state.splits = vec![
        ProgressState { epoch: 0, epoch_total: 2, items_processed: 1, items_total: 5 },
        ProgressState { epoch: 2, epoch_total: 2, items_processed: 5, items_total: 5 },
        ProgressState::default(),
    ];
    assert_eq!(state.current(), 11);
    assert_eq!(state.total(), 20);
}

#[test]
fn penalties_that_are_not_finite_are_dropped() {
    let grad = vec![single(1.0), single(f32::NAN), single(f32::INFINITY), single(-2.0)];
    let (penalty, left) = l2_penalty(10, double(3.0), grad.clone());
    assert_eq!(value(penalty), 3.0);
    assert_eq!(left, vec![single(1.0), single(0.0), single(0.0), single(-2.0)]);
    for (total, penalty) in [(0, 3.0), (10, f64::NAN), (10, f64::INFINITY)] {
        let (penalty, left) = l2_penalty(total, double(penalty), grad.clone());
        assert_eq!(value(penalty), 0.0);
        assert_eq!(left, vec![single(0.0); 4]);
    }
    let mut dual = Dual35::constant(double(2.0));
    dual.grad[3] = double(1.0);
    dual.grad[4] = double(f64::NAN);
    let mut left = vec![double(0.0); 36];
    left[3] = double(1.0);
    assert_eq!(schedule_penalty(&dual), (double(2.0), left));
    assert_eq!(value(keep_finite(dual).value), 2.0);
    dual.value = double(f64::NAN);
    assert_eq!(schedule_penalty(&dual), (double(0.0), vec![double(0.0); 36]));
    assert_eq!(value(keep_finite(dual).value), 0.0);
    assert_eq!(value(keep_finite(dual).grad[3]), 0.0);
}

#[test]
fn penalties_cover_what_all_lists_have() {
    assert_eq!(l2_size(34, 34, 36), 34);
    assert_eq!(l2_size(34, 20, 36), 20);
    assert_eq!(l2_size(40, 40, 36), 36);
    assert!(!penalizes_schedule(true, 34));
    assert!(penalizes_schedule(true, 36));
    assert!(!penalizes_schedule(false, 36));
}

#[test]
fn the_l2_penalty_adds_up_parameters() {
    let part = |i: usize| {
        (double(10.0 + i as f64), single(if i == 1 { f32::INFINITY } else { i as f32 }))
    };
    let plus = |a: Double, b: Double| double(value(a) + value(b));
    let scale = |sum: Double| double(value(sum) * 2.0);
    let (penalty, grad) = l2_penalty_value_and_grad(4, 5, 3, 7, &part, &plus, &scale);
    assert_eq!(value(penalty), 66.0);
    assert_eq!(grad, [0.0, 0.0, 2.0, 0.0].map(single).to_vec());
    let (penalty, grad) = l2_penalty_value_and_grad(4, 5, 3, 0, &part, &plus, &scale);
    assert_eq!(value(penalty), 0.0);
    assert_eq!(grad, vec![single(0.0); 4]);
    let infinite = |_: Double| double(f64::INFINITY);
    let (penalty, grad) = l2_penalty_value_and_grad(4, 5, 3, 7, &part, &plus, &infinite);
    assert_eq!(value(penalty), 0.0);
    assert_eq!(grad, vec![single(0.0); 4]);
}

fn constants(values: &[f64]) -> Vec<Dual35> {
    values.iter().map(|&x| Dual35::constant(double(x))).collect()
}

fn divided(a: Dual35, b: Dual35) -> Dual35 {
    Dual35::constant(double(value(a.value) / value(b.value)))
}

fn added(a: Dual35, b: Dual35) -> Dual35 {
    Dual35::constant(double(value(a.value) + value(b.value)))
}

#[test]
fn schedules_follow_their_states() {
    let interval = |state: &(f64, usize)| Dual35::constant(double(state.0));
    let next = |state: (f64, usize), t: Dual35| (state.0 + 2.0 * value(t.value), state.1 + 1);
    let intervals = schedule((1.0, 0), 3, &interval, &next);
    assert_eq!(intervals.iter().map(|t| value(t.value)).collect::<Vec<_>>(), vec![1.0, 3.0, 9.0]);
    assert!(schedule((1.0, 0), 0, &interval, &next).is_empty());
}

#[test]
fn growth_is_the_largest_ratio_after_a_day() {
    let growth = |values: &[f64]| {
        fastest_growth(&constants(values), &divided).map(|ratio| value(ratio.value))
    };
    assert_eq!(growth(&[]), None);
    assert_eq!(growth(&[5.0]), None);
    assert_eq!(growth(&[0.5, 100.0]), None);
    assert_eq!(growth(&[0.5, 1.0, 2.0, 6.0, 12.0]), Some(3.0));
    assert_eq!(growth(&[1.0, f64::NAN]), None);
    assert_eq!(growth(&[1.0, f64::NAN, 7.0]), None);
    assert_eq!(growth(&[1.0, f64::NEG_INFINITY]), None);
    let square = |ratio: Dual35| Dual35::constant(double(value(ratio.value).powi(2)));
    let penalty = |values: &[f64]| {
        value(interval_growth_penalty(&constants(values), &divided, &square).value)
    };
    assert_eq!(penalty(&[2.0, 6.0]), 9.0);
    assert_eq!(penalty(&[0.5, 6.0]), 0.0);
}

#[test]
fn short_intervals_are_penalized_by_their_mean() {
    let penalty = |sum: Dual35, n: usize| Dual35::constant(double(value(sum.value) + 100.0 * n as f64));
    let mean = |sum: Dual35, n: usize| Dual35::constant(double(value(sum.value) / n as f64));
    let one = |values: &[f64]| {
        short_penalty(&constants(values), &added, &penalty).map(|p| value(p.value))
    };
    assert_eq!(one(&[0.25, 1.0, 0.5, 3.0]), Some(200.75));
    assert_eq!(one(&[1.0, 3.0, f64::NAN]), None);
    let all = |schedules: Vec<Vec<Dual35>>| {
        value(short_interval_penalty(&schedules, &added, &penalty, &mean).value)
    };
    assert_eq!(
        all(vec![constants(&[0.25, 1.0]), constants(&[2.0]), constants(&[0.5, 0.5])]),
        (100.25 + 201.0) / 2.0
    );
    assert_eq!(all(vec![constants(&[2.0])]), 0.0);
    assert_eq!(all(vec![]), 0.0);
}

#[test]
fn schedule_penalties_are_weighed() {
    let growth = || Dual35::variable(double(3.0), 2);
    let short = || Dual35::constant(double(f64::INFINITY));
    let weigh = |a: Dual35, b: Dual35| {
        let sum = double(10.0 * value(a.value) + value(b.value));
        a.combine(b, sum, &|x: Double, y: Double| double(10.0 * value(x) + value(y)))
    };
    let (penalty, grad) = schedule_penalty_value_and_grad(true, 36, &growth, &short, &weigh);
    assert_eq!(value(penalty), 30.0);
    assert_eq!(value(grad[2]), 10.0);
    assert_eq!(grad.iter().filter(|&&g| value(g) != 0.0).count(), 1);
    for (enabled, parameters) in [(true, 34), (false, 36)] {
        let none = schedule_penalty_value_and_grad(enabled, parameters, &growth, &short, &weigh);
        assert_eq!(none, (double(0.0), vec![double(0.0); 36]));
    }
    let half = growth().apply(double(1.5), &|x: Double| double(0.5 * value(x)));
    assert_eq!((value(half.value), value(half.grad[2])), (1.5, 0.5));
}

#[test]
fn frozen_parameters_have_no_gradient() {
    let all: Vec<Single> = (1..35).map(|i| single(i as f32)).collect();
    let mut grad = all.clone();
    freeze(&mut grad, false, false);
    assert_eq!(grad, all);
    freeze(&mut grad, true, true);
    for i in 0..34 {
        let frozen = i < 4 || (15..23).contains(&i);
        assert_eq!(grad[i], if frozen { single(0.0) } else { all[i] }, "{i}");
    }
}

#[test]
fn duals_choose_value_and_gradient_together() {
    let a = Dual35::variable(double(2.0), 3);
    let b = Dual35::constant(double(5.0));
    assert_eq!(value(a.grad[3]), 1.0);
    assert_eq!(value(a.grad[4]), 0.0);
    assert_eq!(a.min(b).grad, a.grad);
    assert_eq!(a.max(b).grad, b.grad);
    assert_eq!(a.clamp_min(double(1.0)).grad, a.grad);
    assert_eq!(a.clamp_min(double(3.0)).grad, b.grad);
    assert_eq!(value(a.clamp_max(double(1.5)).value), 1.5);
    assert_eq!(value(a.clamp(double(3.0), double(4.0)).value), 3.0);
    assert_eq!(a.clamp(double(1.0), double(4.0)).grad, a.grad);
    assert_eq!(Dual35::variable(double(1.0), 40).grad, b.grad);
    let w: Vec<Double> = (0..36).map(|i| double(i as f64)).collect();
    let duals = dual_weights(&w);
    for i in 0..36 {
        assert_eq!(duals[i].value, w[i]);
        assert_eq!(value(duals[i].grad[i]), 1.0);
    }
}

/// A run on five batches of one item, in three epochs, validated with the first three.
fn small_run() -> TrainingRun {
    let mut config = TrainingConfig::new(true, false, None, 1024);
    config.num_epochs = 3;
    config.batch_size = 1;
    let weighted = |i: usize| WeightedFSRSItem {
        weight: single(i as f32),
        item: item(&vec![(3, 0.0); 5 - i]),
    };
    TrainingRun {
        config,
        items: (0..5).map(weighted).collect(),
        test_items: (0..3).map(weighted).collect(),
        initial_parameters: fsrs::parameters::default_parameters(),
    }
}

fn halved(_: u64, _: Phase, _: u64, _: Double, before: Double) -> Double {
    double(value(before) / 2.0)
}

fn go_on(_: &TrainingRun, _: usize, _: usize, _: usize) -> bool {
    false
}

/// A gradient that is 1 by every parameter.
fn flat(_: &TrainingRun, w: &Vec<Single>, _: &BatchHost) -> Vec<Single> {
    vec![single(1.0); w.len()]
}

/// Takes the rate times the gradient off the parameters, and counts the steps.
fn descend(n: usize, w: &Vec<Single>, g: &Vec<Single>, lr: Double) -> (usize, Vec<Single>) {
    let raw = w.iter().zip(g).map(|(w, g)| single(number(*w) - value(lr) as f32 * number(*g)));
    (n + 1, raw.collect())
}

/// A loss that falls with the fifth parameter.
fn falling(_: &TrainingRun, w: &Vec<Single>, _: &BatchHost) -> Double {
    double(number(w[4]) as f64)
}

fn plus(a: Double, b: Double) -> Double {
    double(value(a) + value(b))
}

fn mean(run: &TrainingRun, sum: Double) -> Double {
    double(value(sum) / run.test_items.len() as f64)
}

#[test]
fn runs_go_through_all_steps_and_keep_the_best() {
    let seen = RefCell::new(Vec::new());
    let reports = RefCell::new(Vec::new());
    let gradient = |run: &TrainingRun, w: &Vec<Single>, b: &BatchHost| {
        assert_eq!((run.items.len(), b.real_batch_size), (5, 1));
        vec![b.wts[0]; w.len()]
    };
    let optimize = |n: usize, w: &Vec<Single>, g: &Vec<Single>, lr: Double| {
        seen.borrow_mut().push((number(g[6]), value(lr)));
        let mut raw = w.clone();
        raw[6] = single(0.5 + n as f32 / 16.0);
        (n + 1, raw)
    };
    let report = |run: &TrainingRun, epoch: usize, iteration: usize, n: usize| {
        assert_eq!((run.config.num_epochs, n), (3, 5));
        reports.borrow_mut().push((epoch, iteration));
        false
    };
    let scored = RefCell::new(Vec::new());
    let score = |run: &TrainingRun, w: &Vec<Single>, b: &BatchHost| {
        assert_eq!((run.items.len(), run.test_items.len(), b.real_batch_size), (5, 3, 1));
        scored.borrow_mut().push(number(b.wts[0]));
        // The second epoch is the best; the third does as well.
        double(if number(w[6]) == 0.5 + 4.0 / 16.0 { 0.9 } else { 0.5 })
    };
    let run = small_run();
    let best =
        train(&run, 0usize, &halved, &gradient, &optimize, &report, &score, &plus, &mean).unwrap();
    assert_eq!(number(best[6]), 0.5 + 9.0 / 16.0);
    assert_eq!(best.len(), 34);
    assert_eq!(best, clip_parameters(&best));
    let mut valid_order: Vec<usize> = (0..3).collect();
    valid_order.shuffle(&mut StdRng::seed_from_u64(2023));
    for (k, weight) in scored.into_inner().into_iter().enumerate() {
        // Sorted by length, the items come out in the reverse order.
        assert_eq!(weight, (2 - valid_order[k % 3]) as f32);
    }
    let (seen, reports) = (seen.into_inner(), reports.into_inner());
    assert_eq!((seen.len(), reports.len()), (15, 15));
    let mut rng = StdRng::seed_from_u64(2023);
    for epoch in 0..3 {
        let mut order: Vec<usize> = (0..5).collect();
        order.shuffle(&mut rng);
        for (i, &place) in order.iter().enumerate() {
            let k = epoch * 5 + i;
            // Sorted by length, the items come out in the reverse order.
            assert_eq!(seen[k].0, (4 - place) as f32);
            assert_eq!(seen[k].1, 0.045 / 2f64.powi(k as i32));
            assert_eq!(reports[k], (epoch + 1, i + 1));
        }
    }
}

#[test]
fn frozen_parameters_do_not_move() {
    for (initial, fast) in [(true, true), (true, false), (false, true), (false, false)] {
        let mut run = small_run();
        run.config.model.freeze_initial_stability = initial;
        run.config.model.freeze_short_term_stability = fast;
        // Out of range and out of order.
        run.initial_parameters[0] = single(200.0);
        run.initial_parameters[1] = single(3.0);
        run.initial_parameters[16] = single(-1.0);
        let first = clip_parameters(&run.initial_parameters);
        assert_ne!(first, run.initial_parameters);
        let r = train(&run, 0usize, &halved, &flat, &descend, &go_on, &falling, &plus, &mean).unwrap();
        for i in 0..34 {
            if is_frozen(initial, fast, i) {
                assert_eq!(r[i], first[i]);
            }
        }
        assert_eq!(r[4] == first[4], false);
        assert_eq!(r[0] == first[0], initial);
        assert_eq!(r[15] == first[15], fast);
    }
}

fn is_frozen(initial: bool, fast: bool, i: usize) -> bool {
    (initial && i < 4) || (fast && (15..23).contains(&i))
}

#[test]
fn gradients_of_steps_have_three_parts() {
    let mut run = small_run();
    run.config.enable_sched_penalties = true;
    run.initial_parameters[4] = single(99.0);
    let first = clip_parameters(&run.initial_parameters);
    let batches = build_host_batches(small_run().items, 2);
    let batch = &batches[0];
    let w = fsrs::parameters::default_parameters();
    let l2 = |p: &Vec<Single>, initial: &Vec<Single>, size: usize, total: usize| {
        assert_eq!((p, initial, size, total), (&w, &first, 2, 5));
        (double(100.0), (0..33).map(|i| single(i as f32)).collect::<Vec<_>>())
    };
    let schedule = |p: &Vec<Single>, size: usize, enabled: bool| {
        assert_eq!((p, size, enabled), (&w, 2, true));
        (double(20.0), vec![double(10.0); 32])
    };
    let graded = |p: &Vec<Single>, b: &BatchHost| {
        assert_eq!((p, b.real_batch_size), (&w, 2));
        vec![double(0.5); 36]
    };
    let share = |a: Single, b: Double, n: usize| single(number(a) + (value(b) / n as f64) as f32);
    let sum = |a: Double, b: Single| single(value(a) as f32 + number(b));
    let g = step_gradient(&run, &w, batch, &l2, &schedule, &graded, &share, &sum);
    let mut expected: Vec<f32> = (0..32).map(|i| i as f32 + 2.0 + 0.5).collect();
    expected.extend([32.5, 0.5]);
    assert_eq!(g.iter().map(|x| number(*x)).collect::<Vec<_>>(), expected);
    let lost = |_: &Vec<Single>, b: &BatchHost| double(b.real_batch_size as f64);
    let join = |a: Double, b: Double, c: Double, n: usize| {
        double(value(a) + value(b) + value(c) / n as f64)
    };
    assert_eq!(value(objective(&run, &w, batch, &l2, &schedule, &lost, &join)), 2.0 + 100.0 + 4.0);
}

#[test]
fn inputs_and_schedulers_can_be_cloned() {
    let mut given = input(3);
    given.progress = Some(CombinedProgressState::new_shared());
    given.num_relearning_steps = Some(2);
    let again = given.clone();
    assert_eq!(again.train_set, given.train_set);
    assert_eq!(again.num_relearning_steps, Some(2));
    // Progress goes to the same place.
    again.progress.unwrap().lock().unwrap().want_abort = true;
    assert!(given.progress.unwrap().lock().unwrap().want_abort);
    let fsrs = fsrs::FSRS::default();
    assert_eq!(fsrs.clone().model().clone().w, fsrs.model().w);
}

#[test]
fn batches_are_walked_whole_or_in_halves() {
    let whole = |gw: u64, from: usize, to: usize| (from as u64, gw + to as u64);
    let halves = |middle: usize, end: usize| {
        assert_eq!(middle, end / 2);
        ((1, middle as u64), (2, (end - middle) as u64))
    };
    let plus = |a: u64, b: u64| a + b;
    let merge = |a: u64, b: u64, c: u64| a + 1000 * (b + c);
    let go = |batch: usize| batch_loss_and_grad(&whole, &halves, &plus, &merge, 7u64, batch);
    assert_eq!(go(63), (0, 7 + 63));
    assert_eq!(go(64), (3, 7 + 1000 * 64));
    assert_eq!(go(101), (3, 7 + 1000 * 101));
}

#[test]
fn steps_freeze_and_optimize_and_clip() {
    let mut run = small_run();
    run.config.model.freeze_initial_stability = true;
    let batches = build_host_batches(small_run().items, 2);
    let w = fsrs::parameters::default_parameters();
    let optimize = |n: usize, w: &Vec<Single>, g: &Vec<Single>, lr: Double| {
        assert!((0..34).all(|i| number(g[i]) == if i < 4 { 0.0 } else { 1.0 }));
        assert_eq!(value(lr), 0.25);
        let mut raw = w.clone();
        raw[4] = single(99.0);
        raw[5] = single(f32::NAN);
        (n + 1, raw)
    };
    let (n, after) = step_parameters(&run, &batches[0], double(0.25), 7, &w, &flat, &optimize);
    assert_eq!(n, 8);
    assert_eq!(number(after[4]), 10.0);
    assert!(number(after[5]).is_finite());
    assert_eq!(after, clip_parameters(&after));
    assert_eq!(after[6..], w[6..]);
    assert_eq!(after[..4], w[..4]);
}

#[test]
fn validation_adds_batches_up_in_order() {
    let run = small_run();
    let batches = build_host_batches(small_run().items, 2);
    let w = fsrs::parameters::default_parameters();
    let score = |_: &TrainingRun, p: &Vec<Single>, batch: &BatchHost| {
        assert_eq!(p, &w);
        double(batch.bsz as f64)
    };
    let shift = |a: Double, b: Double| double(10.0 * value(a) + value(b));
    let last = batches.len() - 1;
    let expected = (10.0 * batches[last].bsz as f64 + batches[0].bsz as f64) / 3.0;
    let loss =
        |order: &Vec<usize>| value(validation_loss(&run, &w, &batches, order, &score, &shift, &mean));
    assert_eq!(loss(&vec![last, 0]), expected);
    assert_eq!(loss(&vec![]), 0.0);
}

#[test]
fn runs_that_are_stopped_are_interrupted() {
    let steps = Cell::new(0);
    let optimize = |n: usize, w: &Vec<Single>, g: &Vec<Single>, lr: Double| {
        steps.set(n + 1);
        descend(n, w, g, lr)
    };
    let stop = |_: &TrainingRun, epoch: usize, iteration: usize, _: usize| {
        (epoch, iteration) == (2, 2)
    };
    let r = train(&small_run(), 0usize, &halved, &flat, &optimize, &stop, &falling, &plus, &mean);
    assert_eq!(r, Err(FSRSError::Interrupted));
    assert_eq!(steps.get(), 7);
}

#[test]
fn runs_without_a_loss_keep_what_they_started_with() {
    let none = |_: &TrainingRun, _: Double| double(f64::NAN);
    let trained = |run: &TrainingRun| {
        train(run, 0usize, &halved, &flat, &descend, &go_on, &falling, &plus, &none)
    };
    let mut run = small_run();
    run.initial_parameters[4] = single(99.0);
    let first = clip_parameters(&run.initial_parameters);
    assert_eq!(number(first[4]), 10.0);
    assert_eq!(trained(&run), Ok(first.clone()));
    run.items.clear();
    assert_eq!(trained(&run), Ok(first.clone()));
    // Nothing to validate with gives no loss.
    let mut untested = small_run();
    untested.test_items.clear();
    let r = train(&untested, 0usize, &halved, &flat, &descend, &go_on, &falling, &plus, &mean);
    assert_eq!(r, Ok(fsrs::parameters::default_parameters()));
}
