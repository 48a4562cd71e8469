use fsrs::batch::{FSRSBatch, Histories};
use fsrs::double::Double;
use fsrs::error::FSRSError;
use fsrs::evaluate::{evaluation, r_matrix, rmse_bins, ModelEvaluation, Outcome, RMatrixValue};
use fsrs::lanes::{
    both8, choose8, clamp8, ge8, gt8, initial_stability8, inside8, le8, load8, load_ratings8, lt8,
    max8, min8, power_of_two, rated8, recalled8, review8, review8_back, splat8, split, State8,
};
use fsrs::losses::{batch_loss, batch_loss_simd, card_loss_simd, loss_and_grad_range};
use fsrs::memory::{columns_of, MemoryColumns, MemoryState};
use fsrs::model::{parameters_to_model, FSRS};
use fsrs::progress::ItemProgress;
use fsrs::review::{FSRSItem, FSRSReview};
use fsrs::single::Single;
use fsrs::step::{
    bound, choose_stability, difficulty_change, easy_factor, gated, hard_factor,
    initial_stability_place, is_scored, passes_cap, passes_clamp, reset_fast, reset_passes_to_cap,
    review, review_back, scored_recall, source, stability_ways, Source, StateGradient, D_MAX,
    D_MIN, MAX_R, MIN_R, S_MAX, S_MIN,
};
use fsrs::walk::{lanes_of, split_of, walk, walk_back};
use std::cell::RefCell;

fn single(x: f32) -> Single {
    Single::from_bits(x.to_bits())
}

fn number(x: Single) -> f32 {
    f32::from_bits(x.to_bits())
}

fn state(s: f32, d: f32, sf: f32) -> MemoryState {
    MemoryState { stability: single(s), difficulty: single(d), stability_fast: single(sf) }
}

fn item(reviews: &[(u32, f32)]) -> FSRSItem {
    FSRSItem {
        reviews: reviews
            .iter()
            .map(|&(rating, delta_t)| FSRSReview { rating, delta_t: single(delta_t) })
            .collect(),
    }
}

#[test]
fn ranges_of_states_are_the_published_ones() {
    assert_eq!(S_MIN, 0.0001f32.to_bits());
    assert_eq!(S_MAX, 36500.0f32.to_bits());
    assert_eq!(D_MIN, 1.0f32.to_bits());
    assert_eq!(D_MAX, 10.0f32.to_bits());
    assert_eq!(MIN_R, 1e-5f32.to_bits());
    assert_eq!(MAX_R, (1.0f32 - 1e-5f32).to_bits());
}

#[test]
fn states_are_held_in_range() {
    assert_eq!(bound(state(0.0, 0.0, 1e9)), state(0.0001, 1.0, 36500.0));
    assert_eq!(bound(state(1e9, 11.0, 2.0)), state(36500.0, 10.0, 2.0));
    assert_eq!(bound(state(f32::NAN, f32::NAN, f32::NAN)), state(0.0001, 1.0, 0.0001));
    assert_eq!(number(scored_recall(single(2.0))), 1.0 - 1e-5);
    assert_eq!(number(scored_recall(single(f32::NAN))), 1e-5);
}

#[test]
fn states_come_from_padding_the_rating_or_the_review() {
    assert_eq!(source(0, true, single(0.0)), Source::Padding);
    assert_eq!(source(3, true, single(0.0)), Source::Initial);
    assert_eq!(source(3, true, single(-0.0)), Source::Initial);
    assert_eq!(source(3, true, single(2.0)), Source::Review);
    assert_eq!(source(3, false, single(0.0)), Source::Review);
    for (rating, place) in [(0, 0), (1, 0), (2, 1), (3, 2), (4, 3), (9, 3)] {
        assert_eq!(initial_stability_place(rating), place);
    }
}

#[test]
fn reviews_ask_for_what_they_need() {
    let initial = |rc: u32| state(rc as f32, 5.0, 1e9);
    let update = |last: MemoryState, rating: u32| {
        state(number(last.stability) + rating as f32, 20.0, number(last.stability_fast))
    };
    let first = review(MemoryState::zeros(), 9, true, initial, update);
    assert_eq!(first.source, Source::Initial);
    assert_eq!(first.raw, state(4.0, 5.0, 1e9));
    assert_eq!(first.state, state(4.0, 5.0, 36500.0));
    let next = review(state(-3.0, 5.0, 7.0), 2, false, initial, update);
    assert_eq!(next.last, state(0.0001, 5.0, 7.0));
    assert_eq!(next.raw, state(0.0001 + 2.0, 20.0, 7.0));
    assert_eq!(next.state, state(0.0001 + 2.0, 10.0, 7.0));
    let wild = |_: u32| state(3.0, -4.0, 2.0);
    assert_eq!(review(MemoryState::zeros(), 3, true, wild, update).state, state(3.0, 1.0, 2.0));
    let padding = review(state(3.0, 5.0, 7.0), 0, false, initial, update);
    assert_eq!(padding.source, Source::Padding);
    assert_eq!(padding.state, state(3.0, 5.0, 7.0));
    assert_eq!(review(padding.state, 0, false, initial, update).state, padding.state);
}

#[test]
fn stability_follows_the_rating() {
    let f = |rating: u32, last: f32, left: f32, grown: f32| {
        number(choose_stability(rating, single(last), single(left), single(grown)))
    };
    assert_eq!(f(1, 10.0, 3.0, 40.0), 3.0);
    assert_eq!(f(1, 10.0, 30.0, 40.0), 10.0);
    assert_eq!(f(3, 10.0, 3.0, 40.0), 40.0);
    assert_eq!(f(3, 10.0, 3.0, 2.0), 3.0);
    assert_eq!(number(hard_factor(2, single(0.5))), 0.5);
    assert_eq!(number(hard_factor(3, single(0.5))), 1.0);
    assert_eq!(number(easy_factor(4, single(2.5))), 2.5);
    assert_eq!(number(easy_factor(1, single(2.5))), 1.0);
    assert_eq!(number(reset_fast(1, single(5.0), single(4.0))), 4.0);
    assert_eq!(number(reset_fast(1, single(3.0), single(4.0))), 3.0);
    assert_eq!(number(reset_fast(2, single(5.0), single(4.0))), 5.0);
    assert_eq!(number(difficulty_change(1, single(5.0), single(4.0))), 4.0);
    assert_eq!(number(difficulty_change(2, single(5.0), single(4.0))), 5.0);
}

#[test]
fn gradients_flow_to_what_was_chosen() {
    let f = |rating: u32, last: f32, left: f32, grown: f32| {
        stability_ways(rating, single(last), single(left), single(grown))
    };
    let lapse = f(1, 10.0, 3.0, 40.0);
    assert!(lapse.direct && lapse.left && !lapse.last && !lapse.grown && !lapse.lapsed);
    let grown = f(3, 10.0, 3.0, 40.0);
    assert!(grown.grown && !grown.direct && !grown.lapsed);
    let tie = f(3, 10.0, 12.0, 10.0);
    assert!(tie.lapsed && tie.last && !tie.grown && !tie.left);
    assert!(passes_clamp(single(0.5), single(0.01), single(0.95)));
    assert!(!passes_clamp(single(0.01), single(0.01), single(0.95)));
    assert!(!passes_clamp(single(f32::NAN), single(0.01), single(0.95)));
    assert!(passes_cap(single(59.0), single(60.0)) && !passes_cap(single(60.0), single(60.0)));
    let g = Double::from_bits(2.5f64.to_bits());
    assert_eq!(gated(g, true), g);
    assert_eq!(gated(g, false), Double::from_bits(0));
}

#[test]
fn the_first_review_and_those_without_weight_are_not_scored() {
    assert!(!is_scored(0, single(1.0)));
    assert!(is_scored(1, single(1.0)));
    assert!(!is_scored(1, single(0.0)));
    assert!(!is_scored(1, single(-0.0)));
}

#[test]
fn columns_are_walked_forward_and_back() {
    let states = walk(
        &|s: &Vec<(usize, bool)>, place: usize, first: bool| {
            let mut s = s.clone();
            s.push((place, first));
            s
        },
        Vec::new(),
        3,
        4,
        2,
    );
    assert_eq!(states.len(), 4);
    assert_eq!(states[3], vec![(2, true), (6, false), (10, false)]);
    assert_eq!(states[1], vec![(2, true)]);
    let seen = walk_back(
        &|mut g: Vec<(usize, usize, bool)>, s: &Vec<(usize, bool)>, place: usize, first: bool| {
            g.push((place, s.len(), first));
            g
        },
        &states,
        Vec::new(),
        4,
        2,
    );
    assert_eq!(seen, vec![(10, 3, false), (6, 2, false), (2, 1, true)]);
    assert_eq!(walk(&|s: &u32, _: usize, _: bool| *s, 7u32, 0, 1, 0), vec![7]);
}

#[test]
fn batches_are_split_into_lanes_and_halves() {
    for batch in 0..50 {
        let lanes = lanes_of(batch);
        assert_eq!(lanes.groups, batch / 8);
        assert_eq!(lanes.rest, batch - batch % 8);
    }
    assert_eq!(split_of(63), None);
    assert_eq!(split_of(64), Some(32));
    assert_eq!(split_of(101), Some(50));
}

#[test]
fn lanes_work_one_by_one() {
    let x = [0.5f32, -1.0, 3.0, f32::NAN, 0.0, 7.0, 2.0, 1.0].map(single);
    let y = splat8(single(1.0));
    assert_eq!(gt8(x, y), [false, false, true, false, false, true, true, false]);
    assert_eq!(lt8(x, y), [true, true, false, false, true, false, false, false]);
    assert_eq!(ge8(x, y), [false, false, true, false, false, true, true, true]);
    assert_eq!(le8(x, y), [true, true, false, false, true, false, false, true]);
    assert_eq!(
        clamp8(x, single(0.0), single(2.0)).map(number),
        [0.5, 0.0, 2.0, 0.0, 0.0, 2.0, 2.0, 1.0]
    );
    assert_eq!(max8(x, y).map(number), [1.0, 1.0, 3.0, 1.0, 1.0, 7.0, 2.0, 1.0]);
    assert_eq!(min8(x, y).map(number), [0.5, -1.0, 1.0, 1.0, 0.0, 1.0, 1.0, 1.0]);
    assert_eq!(
        inside8(x, single(0.0), single(3.0)),
        [true, false, false, false, false, false, true, true]
    );
    let ratings = [0, 1, 2, 3, 4, 5, 1, 4];
    assert_eq!(rated8(ratings, 4), [false, false, false, false, true, false, false, true]);
    assert_eq!(recalled8(ratings), [false, false, true, true, true, true, false, true]);
    assert_eq!(
        both8(rated8(ratings, 4), gt8(x, y)),
        [false, false, false, false, false, false, false, false]
    );
    assert_eq!(
        choose8(recalled8(ratings), y, splat8(single(9.0))).map(number),
        [9.0, 9.0, 1.0, 1.0, 1.0, 1.0, 9.0, 1.0]
    );
    let w = [10.0f32, 20.0, 30.0, 40.0].map(single);
    assert_eq!(
        initial_stability8(ratings, w).map(number),
        [10.0, 10.0, 20.0, 30.0, 40.0, 40.0, 10.0, 40.0]
    );
    let row: Vec<Single> = (0..20).map(|i| single(i as f32)).collect();
    assert_eq!(load8(&row, 5).map(number), [5.0, 6.0, 7.0, 8.0, 9.0, 10.0, 11.0, 12.0]);
    let row: Vec<u32> = (0..20).collect();
    assert_eq!(load_ratings8(&row, 12), [12, 13, 14, 15, 16, 17, 18, 19]);
}

#[test]
fn numbers_are_split_into_exponent_and_mantissa() {
    for x in [1.0f32, 1.5, 2.0, 0.1, 36500.0, 1e-37, 3.4e38] {
        let (exponent, mantissa) = split(single(x));
        let m = number(mantissa);
        assert!((1.0..2.0).contains(&m));
        assert_eq!(m as f64 * 2f64.powi(exponent), x as f64, "{x}");
    }
    for n in -126..=127 {
        assert_eq!(number(power_of_two(n)), 2f32.powi(n));
    }
}

#[test]
fn memory_states_start_from_zero_or_what_is_given() {
    let fsrs = FSRS::default();
    let asked = RefCell::new(Vec::new());
    let update = |w: &Vec<Single>, intervals: &Vec<Single>, ratings: &Vec<u32>, last: &Vec<MemoryState>| {
        assert_eq!(w, &fsrs::parameters::default_parameters());
        asked.borrow_mut().push(ratings.clone());
        (0..last.len())
            .map(|c| {
                state(
                    number(last[c].stability) + 10.0 * ratings[c] as f32 + number(intervals[c]),
                    number(last[c].difficulty) + 0.5,
                    number(last[c].stability_fast) + 1.0,
                )
            })
            .collect()
    };
    let initial = |w: &Vec<Single>, ratings: &Vec<u32>| {
        assert_eq!(w, &fsrs::parameters::default_parameters());
        ratings.iter().map(|&r| state(r as f32, 5.0, 0.5 * r as f32)).collect::<Vec<_>>()
    };
    let states = fsrs
        .memory_state_batch(
            vec![item(&[(3, 0.0), (4, 2.0)]), item(&[(1, 0.0)])],
            vec![None, Some(state(2.0, 3.0, 4.0))],
            &update,
            &initial,
            &keep,
        )
        .unwrap();
    assert_eq!(states, vec![state(45.0, 5.5, 2.5), state(12.0, 3.5, 5.0)]);
    assert_eq!(asked.take(), vec![vec![3, 1], vec![4, 0]]);
    assert_eq!(fsrs.memory_state_batch(vec![], vec![], &update, &initial, &keep), Ok(vec![]));
    assert!(asked.take().is_empty());
    let unreviewed = fsrs.memory_state_batch(vec![item(&[])], vec![None, None], &update, &initial, &keep);
    assert_eq!(unreviewed, Ok(vec![MemoryState::zeros(); 2]));
}

#[test]
fn models_run_over_histories_row_by_row() {
    let histories = Histories {
        rows: 2,
        columns: 2,
        intervals: vec![single(0.0), single(0.0), single(3.0), single(0.0)],
        ratings: vec![7, 2, 1, 0],
    };
    let update = |_: &Vec<Single>, intervals: &Vec<Single>, _: &Vec<u32>, last: &Vec<MemoryState>| {
        (0..last.len())
            .map(|c| state(100000.0, number(last[c].difficulty) + number(intervals[c]), 0.0))
            .collect()
    };
    let initial = |_: &Vec<Single>, ratings: &Vec<u32>| {
        ratings.iter().map(|&r| state(r as f32, 1.0 + r as f32, 0.0)).collect::<Vec<_>>()
    };
    let model = parameters_to_model(&[]);
    let states = model.forward(&histories, None, &update, &initial, &keep);
    assert_eq!(states, vec![state(36500.0, 8.0, 0.0001), state(2.0, 3.0, 0.0001)]);
}

/// Leaves what is not a number as it is.
fn keep(x: Single, _: Single, _: Single) -> Single {
    assert!(number(x).is_nan());
    x
}

/// What a model might compute for one column.
fn updated(interval: Single, rating: u32, last: MemoryState) -> MemoryState {
    state(
        number(last.stability) * (1.0 + rating as f32) + number(interval),
        number(last.difficulty) + 3.0 - rating as f32,
        number(last.stability_fast) + 0.25 * number(last.stability),
    )
}

fn update_all(
    _: &Vec<Single>, intervals: &Vec<Single>, ratings: &Vec<u32>, last: &Vec<MemoryState>,
) -> Vec<MemoryState> {
    (0..last.len()).map(|c| updated(intervals[c], ratings[c], last[c])).collect()
}

fn initial_all(_: &Vec<Single>, ratings: &Vec<u32>) -> Vec<MemoryState> {
    ratings.iter().map(|&r| state(r as f32, 12.0 - 3.0 * r as f32, 0.5)).collect()
}

fn histories(rows: &[[(u32, f32); 3]]) -> Histories {
    Histories {
        rows: rows.len(),
        columns: 3,
        intervals: rows.iter().flatten().map(|cell| single(cell.1)).collect(),
        ratings: rows.iter().flatten().map(|cell| cell.0).collect(),
    }
}

#[test]
fn histories_can_be_joined() {
    let model = parameters_to_model(&[]);
    let rows = [
        [(3, 0.0), (1, 0.0), (4, 0.0)],
        [(2, 5.0), (3, 1.0), (0, 0.0)],
        [(1, 9.0), (4, 2.5), (0, 0.0)],
        [(4, 1.5), (0, 0.0), (0, 0.0)],
    ];
    let whole = model.forward(&histories(&rows), None, &update_all, &initial_all, &keep);
    for cut in 1..=4 {
        let early = model.forward(&histories(&rows[..cut]), None, &update_all, &initial_all, &keep);
        let late = histories(&rows[cut..]);
        assert_eq!(model.forward(&late, Some(early), &update_all, &initial_all, &keep), whole);
    }
    let padded: Vec<_> = rows.iter().copied().chain([[(0, 0.0); 3]; 3]).collect();
    assert_eq!(model.forward(&histories(&padded), None, &update_all, &initial_all, &keep), whole);
    let start = vec![state(-1.0, 50.0, 0.0); 3];
    let none = model.forward(&histories(&[]), Some(start.clone()), &update_all, &initial_all, &keep);
    assert_eq!(none, start);
}

#[test]
fn items_are_remembered_as_if_alone() {
    let fsrs = FSRS::default();
    let items = vec![
        item(&[(3, 0.0)]),
        item(&[(1, 0.0), (2, 3.0), (4, 7.0), (4, 20.0)]),
        item(&[(2, 1.0), (1, 8.0)]),
    ];
    let starts = vec![None, None, Some(state(6.0, 4.0, 2.0))];
    let all =
        fsrs.memory_state_batch(items.clone(), starts.clone(), &update_all, &initial_all, &keep).unwrap();
    assert_eq!(all.len(), 3);
    for i in 0..3 {
        let alone = fsrs
            .memory_state_batch(vec![items[i].clone()], vec![starts[i]], &update_all, &initial_all, &keep)
            .unwrap();
        assert_eq!(alone, vec![all[i]]);
        assert!((1.0..=10.0).contains(&number(all[i].difficulty)));
        assert!((0.0001..=36500.0).contains(&number(all[i].stability)));
        assert!((0.0001..=36500.0).contains(&number(all[i].stability_fast)));
    }
}

#[test]
fn what_is_not_a_number_is_what_holding_makes_of_it() {
    let rows = [[(3, 0.0), (1, f32::NAN), (0, 0.0)], [(2, f32::NAN), (0, 0.0), (0, 0.0)]];
    let start = vec![
        state(2.0, f32::NAN, 3.0),
        state(f32::NAN, 5.0, 3.0),
        state(f32::NAN, f32::NAN, 70000.0),
    ];
    let model = parameters_to_model(&[]);
    let parts = |nan: &dyn Fn(Single, Single, Single) -> Single| {
        let nan = |x: Single, low: Single, high: Single| nan(x, low, high);
        let end =
            model.forward(&histories(&rows), Some(start.clone()), &update_all, &initial_all, &nan);
        end.iter()
            .map(|s| [s.stability, s.difficulty, s.stability_fast].map(number))
            .collect::<Vec<_>>()
    };
    let kept = parts(&keep);
    assert!(kept[0][0].is_nan() && kept[0][1].is_nan());
    assert!(kept[1][0].is_nan() && kept[1][1] == 7.0 && kept[1][2].is_nan());
    assert!(kept[2][0].is_nan() && kept[2][1].is_nan() && kept[2][2] == 36500.0);
    let low = parts(&|_: Single, low: Single, _: Single| low);
    assert_eq!(low[2], [0.0001, 1.0, 36500.0]);
    let high = parts(&|_: Single, _: Single, high: Single| high);
    assert_eq!(high[2], [36500.0, 10.0, 36500.0]);
    assert_eq!(high[1][0], 36500.0);
}

#[test]
fn states_and_reviews_are_equal_as_numbers_are() {
    assert_eq!(state(0.0, 1.0, 2.0), state(-0.0, 1.0, 2.0));
    assert_ne!(state(0.0, 1.0, f32::NAN), state(0.0, 1.0, f32::NAN));
    assert_ne!(state(0.0, 1.0, 2.0), state(0.0, 1.5, 2.0));
    assert_eq!(item(&[(3, 0.0), (1, 2.0)]), item(&[(3, -0.0), (1, 2.0)]));
    assert_ne!(item(&[(3, f32::NAN)]), item(&[(3, f32::NAN)]));
    assert_ne!(item(&[(3, 0.0)]), item(&[(3, 0.0), (1, 2.0)]));
    assert_ne!(item(&[(3, 0.0)]), item(&[(4, 0.0)]));
}

#[test]
fn memory_states_go_as_far_as_all_columns() {
    let columns = MemoryColumns {
        stability: vec![single(1.0), single(2.0)],
        difficulty: vec![single(3.0)],
        stability_fast: vec![single(4.0), single(5.0), single(6.0)],
    };
    assert_eq!(columns.to_states(), vec![state(1.0, 3.0, 4.0)]);
    let states = vec![state(1.0, 2.0, 3.0), state(4.0, 5.0, 6.0)];
    let columns = columns_of(&states);
    assert_eq!(columns.difficulty, vec![single(2.0), single(5.0)]);
    assert_eq!(columns.to_states(), states);
}

fn predict(_: &Vec<Single>, batch: &FSRSBatch) -> Vec<Single> {
    batch.delta_ts.iter().map(|x| single(1.0 / (1.0 + number(*x)))).collect()
}

#[test]
fn nothing_cannot_be_evaluated() {
    let r = FSRS::default().outcomes(
        vec![],
        |_, _| single(1.0),
        predict,
        |_| (0, 0, 0),
        |_| true,
    );
    assert_eq!(r, Err(FSRSError::NotEnoughData));
    let r = FSRS::default().evaluate(
        vec![],
        |_, _| single(1.0),
        predict,
        |_| (0, 0, 0),
        &error,
        &plus,
        &root,
        &|_: &Vec<Outcome>| single(0.0),
        |_| true,
    );
    assert_eq!(r, Err(FSRSError::NotEnoughData));
}

#[test]
fn items_are_evaluated_in_chunks() {
    let items: Vec<FSRSItem> =
        (0..1100).map(|i| item(&[(3, 0.0), (1 + (i % 2) as u32, (i % 7) as f32)])).collect();
    let told = RefCell::new(Vec::new());
    let outcomes = FSRS::default()
        .outcomes(
            items,
            |i, n| single(i as f32 / n as f32),
            predict,
            |it| (it.reviews.len() as u32, it.reviews[1].rating, 0),
            |p| {
                told.borrow_mut().push(p);
                true
            },
        )
        .unwrap();
    assert_eq!(outcomes.len(), 1100);
    for (i, outcome) in outcomes.iter().enumerate() {
        assert_eq!(number(outcome.prediction), 1.0 / (1.0 + (i % 7) as f32));
        assert_eq!(outcome.recalled, i % 2 == 1);
        assert_eq!(number(outcome.weight), i as f32 / 1100.0);
        assert_eq!(outcome.bin, (2, 1 + (i % 2) as u32, 0));
    }
    let progress: Vec<ItemProgress> = told.into_inner();
    let currents: Vec<(usize, usize)> = progress.iter().map(|p| (p.current, p.total)).collect();
    assert_eq!(currents, vec![(512, 1100), (1024, 1100), (1100, 1100)]);
}

#[test]
fn evaluation_can_be_interrupted() {
    let items: Vec<FSRSItem> = (0..600).map(|_| item(&[(3, 0.0), (3, 1.0)])).collect();
    let evaluate = |items: Vec<FSRSItem>, last: usize| {
        FSRS::default().evaluate(
            items,
            |i, _| single(i as f32),
            predict,
            |_| (0, 0, 0),
            &error,
            &plus,
            &root,
            &|outcomes: &Vec<Outcome>| single(number(outcomes[2].weight) + outcomes.len() as f32),
            |p| p.current < last,
        )
    };
    assert_eq!(evaluate(items.clone(), 600), Err(FSRSError::Interrupted));
    assert_eq!(evaluate(items.clone(), 512), Err(FSRSError::Interrupted));
    assert_eq!(
        evaluate(items, 601),
        // Recall of a half is predicted of every item, and every item was recalled.
        Ok(ModelEvaluation { log_loss: single(602.0), rmse_bins: single(0.5) })
    );
}

#[test]
fn errors_are_weighed_cell_by_cell() {
    let outcome = |prediction: f32, recalled: bool, weight: f32, bin: u32| Outcome {
        prediction: single(prediction),
        recalled,
        weight: single(weight),
        bin: (bin, 0, 0),
    };
    let outcomes = vec![
        outcome(0.75, true, 1.0, 7),
        outcome(0.5, false, 2.0, 3),
        outcome(0.25, true, 1.0, 7),
    ];
    assert_eq!(number(rmse_bins(&outcomes, &error, &plus, &root)), 0.5);
    let loss = |outcomes: &Vec<Outcome>| outcomes[1].prediction;
    assert_eq!(
        evaluation(&outcomes, &error, &plus, &root, &loss),
        ModelEvaluation { log_loss: single(0.5), rmse_bins: single(0.5) }
    );
    let sums = RefCell::new(Vec::new());
    let noted = |v: RMatrixValue| {
        sums.borrow_mut().push([v.predicted, v.actual, v.count, v.weight].map(number));
        error(v)
    };
    rmse_bins(&outcomes, &noted, &plus, &root);
    assert_eq!(sums.into_inner(), vec![[1.0, 2.0, 2.0, 2.0], [0.5, 0.0, 1.0, 2.0]]);
}

fn plus(a: Single, b: Single) -> Single {
    single(number(a) + number(b))
}

fn error(v: RMatrixValue) -> Single {
    let off = number(v.predicted) / number(v.count) - number(v.actual) / number(v.count);
    single(off * off * number(v.weight))
}

fn root(off: Single, weight: Single) -> Single {
    single((number(off) / number(weight)).sqrt())
}

#[test]
fn outcomes_are_grouped_by_cell() {
    let outcome = |bin: (u32, u32, u32)| Outcome {
        prediction: single(0.5),
        recalled: true,
        weight: single(1.0),
        bin,
    };
    let outcomes: Vec<Outcome> =
        [(2, 0, 0), (1, 0, 0), (2, 0, 0), (2, 0, 1), (1, 0, 0)].map(outcome).to_vec();
    let table = r_matrix(&outcomes);
    let groups: Vec<((u32, u32, u32), Vec<usize>)> =
        table.into_iter().map(|g| (g.bin, g.members)).collect();
    assert_eq!(
        groups,
        vec![((2, 0, 0), vec![0, 2]), ((1, 0, 0), vec![1, 4]), ((2, 0, 1), vec![3])]
    );
    assert!(r_matrix(&vec![]).is_empty());
}

fn gradient(s: f64, d: f64, sf: f64) -> StateGradient {
    let double = |x: f64| Double::from_bits(x.to_bits());
    StateGradient { stability: double(s), difficulty: double(d), stability_fast: double(sf) }
}

#[test]
fn gradients_of_reviews_flow_back() {
    let before = MemoryState {
        stability: single(5.0),
        difficulty: single(10.0),
        stability_fast: single(4.0),
    };
    let after = MemoryState {
        stability: single(40000.0),
        difficulty: single(2.0),
        stability_fast: single(3.0),
    };
    let initial = |w: u32, rating: u32, g: StateGradient| {
        assert_eq!(g, gradient(0.0, 2.0, 3.0));
        w + 100 * rating
    };
    let update = |w: u32, g: StateGradient| {
        assert_eq!(g, gradient(0.0, 2.0, 3.0));
        (gradient(7.0, 8.0, 9.0), w + 1)
    };
    let reviewed = review(before, 3, false, |_: u32| before, |_: MemoryState, _: u32| after);
    assert_eq!(reviewed.raw, after);
    assert_eq!(number(reviewed.state.stability), 36500.0);
    let g = gradient(1.0, 2.0, 3.0);
    assert_eq!(
        review_back(before, 3, reviewed, g, 5u32, initial, update),
        (gradient(7.0, 0.0, 9.0), 6)
    );
    let hard = MemoryState { difficulty: single(12.0), ..after };
    let held = review(before, 3, false, |_: u32| before, |_: MemoryState, _: u32| hard);
    let none = |w: u32, g: StateGradient| {
        assert_eq!(g, gradient(0.0, 0.0, 3.0));
        (gradient(0.0, 0.0, 0.0), w)
    };
    assert_eq!(review_back(before, 3, held, g, 5u32, initial, none).1, 5);
    let padding = review(before, 0, false, |_: u32| after, |_: MemoryState, _: u32| after);
    assert_eq!(
        review_back(before, 0, padding, g, 5u32, initial, update),
        (gradient(1.0, 0.0, 3.0), 5)
    );
    let begun =
        review(MemoryState::zeros(), 9, true, |_: u32| after, |_: MemoryState, _: u32| before);
    assert_eq!(
        review_back(MemoryState::zeros(), 9, begun, g, 5u32, initial, update),
        (StateGradient::zeros(), 405)
    );
    assert!(reset_passes_to_cap(1, single(5.0), single(4.0)));
    assert!(!reset_passes_to_cap(1, single(4.0), single(4.0)));
    assert!(!reset_passes_to_cap(2, single(5.0), single(4.0)));
}

fn eight(x: f32) -> State8 {
    let lane = |y: f32| [0.0f32, 1.0, 2.0, 3.0, 4.0, 5.0, 6.0, 7.0].map(|l| single(x + y + l));
    State8 { stability: lane(0.0), difficulty: lane(1.0), stability_fast: lane(2.0) }
}

#[test]
fn eight_columns_go_as_each_by_itself() {
    let ratings = [0, 1, 2, 3, 4, 0, 1, 7];
    let lane = |s: State8, l: usize| MemoryState {
        stability: s.stability[l],
        difficulty: s.difficulty[l],
        stability_fast: s.stability_fast[l],
    };
    let initial = |rating: u32| MemoryState {
        stability: single(rating as f32),
        difficulty: single(2.0 * rating as f32),
        stability_fast: single(0.0),
    };
    let update = |last: MemoryState, rating: u32| MemoryState {
        stability: single(number(last.stability) * 30000.0),
        difficulty: single(number(last.difficulty) - 0.5 * rating as f32),
        stability_fast: single(number(last.stability_fast) + rating as f32),
    };
    let all = |f: &dyn Fn(usize) -> MemoryState| State8 {
        stability: std::array::from_fn(|l| f(l).stability),
        difficulty: std::array::from_fn(|l| f(l).difficulty),
        stability_fast: std::array::from_fn(|l| f(l).stability_fast),
    };
    let initial8 = |held: [u32; 8]| all(&|l| initial(held[l]));
    let update8 = |last: State8, rs: [u32; 8]| all(&|l| update(lane(last, l), rs[l]));
    let later = review8(eight(1.0), ratings, false, &initial8, &update8);
    for l in 0..8 {
        let one = review(lane(eight(1.0), l), ratings[l], false, initial, update);
        assert_eq!(lane(later.state, l), one.state);
        assert_eq!(lane(later.last, l), one.last);
        assert_eq!(lane(later.raw, l), one.raw);
    }
    let first = review8(State8::zeros(), ratings, true, &initial8, &update8);
    for l in (0..8).filter(|&l| ratings[l] != 0) {
        let one = review(MemoryState::zeros(), ratings[l], true, initial, update);
        assert_eq!(lane(first.state, l), one.state);
    }
    assert_eq!(lane(first.raw, 0), initial(1));
    let back_update = |w: u32, flowing: State8, passing: State8| {
        for l in 0..8 {
            let (on, off) = if ratings[l] == 0 { (passing, flowing) } else { (flowing, passing) };
            assert_eq!(lane(off, l), MemoryState::zeros());
            assert_eq!(lane(on, l).difficulty, eight(20.0).difficulty[l]);
        }
        (flowing, w + 1)
    };
    let back_initial = |w: u32, held: [u32; 8], _: State8| w + held[7];
    let (g, w) = review8_back(
        eight(1.0), ratings, false, later, eight(20.0), 5u32, &back_initial, &back_update,
    );
    assert_eq!(w, 6);
    assert_eq!(number(g.difficulty[1]), 22.0);
    assert_eq!(number(g.difficulty[7]), 28.0);
    assert_eq!(number(g.difficulty[0]), 0.0);
    let (g, w) = review8_back(
        State8::zeros(), ratings, true, first, eight(20.0), 5u32, &back_initial, &back_update,
    );
    assert_eq!(w, 9);
    assert_eq!(lane(g, 3), MemoryState::zeros());
}

#[test]
fn losses_are_added_up_column_by_column() {
    let step = |s: &u64, place: usize, _: bool| 10 * s + place as u64;
    let one = |s: &u64, c: usize| vec![(c, *s)];
    let join = |a: Vec<(usize, u64)>, b: Vec<(usize, u64)>| [a, b].concat();
    assert_eq!(
        batch_loss(&step, 1u64, &one, &join, Vec::new(), 2, 3),
        vec![(0, 103), (1, 114), (2, 125)]
    );
    let step8 = |s: &u64, place: usize, first: bool| if first { 7 } else { s + place as u64 };
    let score8 = |s: &u64, c: usize| std::array::from_fn(|j| s + 1000 * (c + j) as u64);
    let score1 = |s: &u64, c: usize| s + 50000 * c as u64;
    let add = |a: u64, b: u64| a + b;
    let sum = batch_loss_simd(&step8, 0u64, &score8, &step, 0u64, &score1, &add, 0, 2, 10);
    let group: u64 = (0..8).map(|c| 7 + 10 + 1000 * c).sum();
    assert_eq!(sum, group + (8 * 10 + 18 + 400000) + (9 * 10 + 19 + 450000));
    let (losses, gradients) = loss_and_grad_range(
        &step,
        1u64,
        &|s: &u64, c: usize| (*s, vec![c]),
        &|mut g: Vec<usize>, s: &u64, place: usize, first: bool| {
            assert_eq!(*s % 10, place as u64);
            assert_eq!(first, place < 3);
            g.push(place);
            g
        },
        &add,
        &|mut all: Vec<Vec<usize>>, g: Vec<usize>| {
            all.push(g);
            all
        },
        0,
        Vec::new(),
        2,
        3,
        1,
        1,
        3,
    );
    assert_eq!(losses, 114 + 125);
    assert_eq!(gradients, vec![vec![1, 4, 1], vec![2, 5, 2]]);
}

#[test]
fn cards_are_scored_at_reviews_with_weights() {
    let (rows, columns) = (3, 16);
    let mut weights = vec![single(0.0); rows * columns];
    for place in [3, 16 + 2, 16 + 9, 32 + 2, 32 + 15] {
        weights[place] = single(1.0);
    }
    let step = |s: &usize, _: usize, _: bool| s + 1;
    let score = |s: &usize, place: usize| std::array::from_fn(|j| s * 1000 + place + j);
    let digits = |a: usize, b: usize| a * 10000 + b;
    let sum = card_loss_simd(&step, 0usize, &score, &weights, &digits, 0, rows, columns);
    assert_eq!(sum, 2018_3034_2025_3047);
    assert_eq!(card_loss_simd(&step, 0usize, &score, &[], &digits, 5, 0, 16), 5);
}

#[test]
fn held_states_can_be_split() {
    for x in [f32::NAN, -1.0, 0.0, f32::INFINITY, 1e-30, 5.0, 1e30] {
        let state = MemoryState {
            stability: single(x),
            difficulty: single(x),
            stability_fast: single(x),
        };
        let held = bound(state);
        for part in [held.stability, held.difficulty, held.stability_fast] {
            let (exponent, mantissa) = split(part);
            assert!((1.0..2.0).contains(&number(mantissa)));
            assert_eq!(number(mantissa) * 2f32.powi(exponent), number(part));
        }
    }
}

#[test]
fn eight_columns_are_walked_as_each_by_itself() {
    let (rows, columns) = (4, 8);
    let ratings: Vec<u32> =
        (0..rows * columns).map(|i| if i < columns { 1 + i as u32 % 4 } else { i as u32 % 5 }).collect();
    let initial = |rating: u32| MemoryState {
        stability: single(rating as f32),
        difficulty: single(5.0),
        stability_fast: single(0.5 * rating as f32),
    };
    let update = |last: MemoryState, rating: u32| MemoryState {
        stability: single(number(last.stability) * rating as f32),
        difficulty: single(number(last.difficulty) + 0.25),
        stability_fast: single(number(last.stability_fast) + 1.0),
    };
    let lane = |s: &State8, l: usize| MemoryState {
        stability: s.stability[l],
        difficulty: s.difficulty[l],
        stability_fast: s.stability_fast[l],
    };
    let all = |f: &dyn Fn(usize) -> MemoryState| State8 {
        stability: std::array::from_fn(|l| f(l).stability),
        difficulty: std::array::from_fn(|l| f(l).difficulty),
        stability_fast: std::array::from_fn(|l| f(l).stability_fast),
    };
    let initial8 = |held: [u32; 8]| all(&|l| initial(held[l]));
    let update8 = |last: State8, rs: [u32; 8]| all(&|l| update(lane(&last, l), rs[l]));
    let step8 = |s: &State8, place: usize, first: bool| {
        review8(*s, load_ratings8(&ratings, place), first, &initial8, &update8).state
    };
    let step = |s: &MemoryState, place: usize, first: bool| {
        review(*s, ratings[place], first, initial, update).state
    };
    let together = walk(&step8, State8::zeros(), rows, columns, 0);
    for l in 0..8 {
        let alone = walk(&step, MemoryState::zeros(), rows, columns, l);
        for t in 0..=rows {
            assert_eq!(lane(&together[t], l), alone[t]);
        }
    }
}
