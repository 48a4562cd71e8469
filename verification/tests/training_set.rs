use fsrs::batch::{build_host_batches, items_to_histories, FSRSBatcher};
use fsrs::dataset::{
    prepare_training_data, recency_weighted_fsrs_items, retain_short, sort_items_by_review_length,
    WeightedFSRSItem,
};
use fsrs::order::stable_order;
use fsrs::outlier::filter_outlier;
use fsrs::raw::reconstruct_raw_items;
use fsrs::review::{
    bucket_long_term_delta_t, normalize_training_set, FSRSItem, FSRSReview,
};
use fsrs::single::Single;

fn single(x: f32) -> Single {
    Single::from_bits(x.to_bits())
}

fn number(x: Single) -> f32 {
    f32::from_bits(x.to_bits())
}

fn item(reviews: &[(u32, f32)]) -> FSRSItem {
    FSRSItem {
        reviews: reviews
            .iter()
            .map(|&(rating, delta_t)| FSRSReview { rating, delta_t: single(delta_t) })
            .collect(),
    }
}

fn weighted(weight: f32, reviews: &[(u32, f32)]) -> WeightedFSRSItem {
    WeightedFSRSItem { weight: single(weight), item: item(reviews) }
}

#[test]
fn items_know_their_long_term_reviews() {
    let it = item(&[(3, 0.0), (1, 0.5), (2, 1.0), (1, 7.25), (4, 30.0)]);
    assert_eq!(it.long_term_review_cnt(), 3);
    assert_eq!(it.first_long_term_review(), FSRSReview { rating: 2, delta_t: single(1.0) });
    assert_eq!(it.history().len(), 4);
    assert_eq!(it.history()[3].rating, 1);
    assert_eq!(it.current().rating, 4);
    assert_eq!(it.lapse_cnt(), 1);
    assert_eq!(it.r_matrix_index(7, 8, 9), (7, 8, 9));
    let never = item(&[(3, 0.0), (1, 0.5), (1, 4.0)]);
    assert_eq!(never.lapse_cnt(), 0);
    assert_eq!(never.r_matrix_index(7, 8, 9), (7, 8, 0));
    assert_eq!(item(&[(3, 0.0), (3, f32::NAN)]).long_term_review_cnt(), 0);
    assert_eq!(FSRSItem::default().long_term_review_cnt(), 0);
}

#[test]
fn intervals_fall_into_whole_days() {
    let cases = [
        (0.2, 1.0),
        (1.0, 1.0),
        (1.99, 1.0),
        (2.0, 2.0),
        (7.5, 7.0),
        (-3.0, 1.0),
        (f32::NAN, 1.0),
        (f32::INFINITY, 1.0),
        (123456.7, 123456.0),
    ];
    for (delta_t, days) in cases {
        assert_eq!(number(bucket_long_term_delta_t(single(delta_t))), days, "{delta_t}");
    }
}

#[test]
fn negative_intervals_become_zero() {
    let set = normalize_training_set(vec![
        item(&[(3, 0.0), (2, -4.0), (1, 2.5)]),
        item(&[(4, f32::NAN)]),
    ]);
    assert_eq!(set, vec![item(&[(3, 0.0), (2, 0.0), (1, 2.5)]), item(&[(4, 0.0)])]);
    assert_eq!(normalize_training_set(set.clone()), set);
}

#[test]
fn sorting_is_stable() {
    let keys = vec![(2, 0, 0), (1, 5, 0), (2, 0, 0), (1, 4, 9), (1, 5, 0), (0, 9, 9)];
    assert_eq!(stable_order(&keys), vec![5, 3, 1, 4, 0, 2]);
    assert_eq!(stable_order(&vec![]), Vec::<usize>::new());
    let keys: Vec<(u64, u64, u64)> = (0..1000).map(|i| ((i * 7919) % 13, (i * 31) % 5, 0)).collect();
    let mut expected: Vec<usize> = (0..1000).collect();
    expected.sort_by_key(|&i| keys[i]);
    assert_eq!(stable_order(&keys), expected);
}

/// Items of one rating, `count` of them with each interval.
fn group(rating: u32, days: f32, count: usize) -> Vec<FSRSItem> {
    (0..count).map(|i| item(&[(rating, 0.0), (1 + (i % 4) as u32, days)])).collect()
}

#[test]
fn small_groups_are_outliers() {
    // 5 + 14 items come before the limit of 20 is reached; 30 and 60 are beyond it.
    let mut data = group(3, 9.0, 5);
    data.extend(group(3, 1.0, 60));
    data.extend(group(3, 4.0, 14));
    data.extend(group(3, 2.0, 30));
    let (kept, train) = filter_outlier(data.clone(), data.clone());
    let mut expected = group(3, 2.0, 30);
    expected.extend(group(3, 1.0, 60));
    assert_eq!(kept, expected);
    let survivors: Vec<FSRSItem> = data
        .iter()
        .filter(|it| [1.0, 2.0].contains(&number(it.reviews[1].delta_t)))
        .cloned()
        .collect();
    assert_eq!(train, survivors);
}

#[test]
fn groups_of_one_size_are_ordered_by_days() {
    // 15 + 15: the shorter interval is counted first and falls below the limit.
    let mut data = group(2, 8.0, 15);
    data.extend(group(2, 3.0, 15));
    let (kept, _) = filter_outlier(data, vec![]);
    assert_eq!(kept, group(2, 8.0, 15));
}

#[test]
fn one_in_twenty_is_the_limit_of_large_sets() {
    // 1000 items of the rating: the limit is 50.
    let mut data = group(1, 1.0, 910);
    data.extend(group(1, 5.0, 45));
    data.extend(group(1, 6.0, 45));
    let (kept, _) = filter_outlier(data, vec![]);
    assert_eq!(kept.len(), 955);
    assert_eq!(number(kept[0].reviews[1].delta_t), 6.0);
}

#[test]
fn long_intervals_are_outliers() {
    for (rating, longest) in [(1u32, 100.0f32), (2, 100.0), (3, 100.0), (4, 365.0)] {
        let mut data = group(rating, longest, 30);
        data.extend(group(rating, longest + 1.0, 40));
        let (kept, train) = filter_outlier(data.clone(), data);
        assert_eq!(kept, group(rating, longest, 30));
        assert_eq!(train, group(rating, longest, 30));
    }
}

#[test]
fn groups_with_few_items_are_outliers() {
    let mut data = group(3, 1.0, 5);
    for days in 2..22 {
        data.extend(group(3, days as f32, 5));
    }
    data.extend(group(3, 50.0, 6));
    let (kept, _) = filter_outlier(data, vec![]);
    assert_eq!(kept, group(3, 50.0, 6));
}

#[test]
fn ratings_come_out_in_order() {
    let mut data = group(4, 1.0, 30);
    data.extend(group(2, 1.0, 30));
    let (kept, _) = filter_outlier(data, vec![]);
    let mut expected = group(2, 1.0, 30);
    expected.extend(group(4, 1.0, 30));
    assert_eq!(kept, expected);
}

#[test]
fn items_without_long_term_reviews_stay() {
    let same_day = item(&[(3, 0.0), (3, 0.1)]);
    let unknown = item(&[(3, 0.0), (3, 77.0)]);
    let (kept, train) =
        filter_outlier(group(3, 5.0, 3), vec![same_day.clone(), group(3, 5.0, 1)[0].clone(), unknown.clone()]);
    assert!(kept.is_empty());
    assert_eq!(train, vec![same_day, unknown]);
}

#[test]
fn training_data_is_split_by_long_term_reviews() {
    let one = item(&[(3, 0.0), (2, 4.0)]);
    let two = item(&[(3, 0.0), (2, 4.0), (3, 9.0)]);
    let none = item(&[(3, 0.0)]);
    let items = vec![two.clone(), one.clone(), none.clone()];
    let (init, train) = prepare_training_data(items.clone(), true);
    assert_eq!(init, vec![one]);
    assert_eq!(train, vec![two, none.clone()]);
    // The only group of rating 3 and four days is an outlier.
    let (init, train) = prepare_training_data(items, false);
    assert!(init.is_empty());
    assert_eq!(train, vec![none]);
}

#[test]
fn weights_come_from_place_and_number() {
    let items = vec![item(&[(1, 0.0)]), item(&[(2, 0.0)]), item(&[(3, 0.0)])];
    let r = recency_weighted_fsrs_items(items.clone(), |i, n| single((i * 10 + n) as f32));
    assert_eq!(r.iter().map(|x| number(x.weight)).collect::<Vec<_>>(), vec![3.0, 13.0, 23.0]);
    assert_eq!(r.into_iter().map(|x| x.item).collect::<Vec<_>>(), items);
}

#[test]
fn long_items_are_left_out() {
    let r = retain_short(
        vec![
            weighted(1.0, &[(1, 0.0), (1, 1.0)]),
            weighted(2.0, &[(1, 0.0), (1, 1.0), (1, 1.0)]),
            weighted(3.0, &[(1, 0.0)]),
        ],
        2,
    );
    assert_eq!(r.iter().map(|x| number(x.weight)).collect::<Vec<_>>(), vec![1.0, 3.0]);
}

#[test]
fn items_are_sorted_by_length() {
    let r = sort_items_by_review_length(vec![
        weighted(1.0, &[(1, 0.0), (1, 1.0)]),
        weighted(2.0, &[(1, 0.0)]),
        weighted(3.0, &[(1, 0.0), (1, 1.0)]),
        weighted(4.0, &[(1, 0.0)]),
    ]);
    assert_eq!(r.iter().map(|x| number(x.weight)).collect::<Vec<_>>(), vec![2.0, 4.0, 1.0, 3.0]);
}

fn three_items() -> Vec<WeightedFSRSItem> {
    vec![
        weighted(0.5, &[(3, 0.0), (1, 2.0), (4, 5.0)]),
        weighted(0.25, &[(2, 0.0), (1, 3.0)]),
        weighted(0.75, &[(4, 0.0), (2, 1.0), (3, 7.0), (1, 9.0)]),
    ]
}

#[test]
fn batches_are_laid_out_row_by_row() {
    let batch = FSRSBatcher::new().batch(three_items());
    assert_eq!(batch.historys.rows, 3);
    assert_eq!(batch.historys.columns, 3);
    let intervals: Vec<f32> = batch.historys.intervals.iter().map(|&x| number(x)).collect();
    assert_eq!(intervals, vec![0.0, 0.0, 0.0, 2.0, 0.0, 1.0, 0.0, 0.0, 7.0]);
    assert_eq!(batch.historys.ratings, vec![3, 2, 4, 1, 0, 2, 0, 0, 3]);
    let delta_ts: Vec<f32> = batch.delta_ts.iter().map(|&x| number(x)).collect();
    assert_eq!(delta_ts, vec![5.0, 3.0, 9.0]);
    assert_eq!(batch.labels, vec![1, 0, 0]);
    let weights: Vec<f32> = batch.weights.iter().map(|&x| number(x)).collect();
    assert_eq!(weights, vec![0.5, 0.25, 0.75]);
}

#[test]
fn host_batches_match_the_batcher() {
    let batches = build_host_batches(three_items(), 2);
    assert_eq!(batches.len(), 2);
    let items = three_items();
    let first = FSRSBatcher::new().batch(vec![items[1].clone(), items[0].clone()]);
    let host = &batches[0];
    assert_eq!((host.seq, host.bsz, host.real_batch_size), (2, 2, 2));
    assert_eq!(host.th, first.historys.intervals);
    assert_eq!(host.rh, first.historys.ratings);
    assert_eq!(host.dts, first.delta_ts);
    assert_eq!(host.wts, first.weights);
    assert_eq!(host.lbl.iter().map(|&x| number(x)).collect::<Vec<_>>(), vec![0.0, 1.0]);
    let last = &batches[1];
    assert_eq!((last.seq, last.bsz, last.real_batch_size), (3, 1, 1));
    assert_eq!(last.rh, vec![4, 2, 3]);
}

#[test]
fn no_items_make_no_batches() {
    assert!(build_host_batches(vec![], 512).is_empty());
}

#[test]
fn a_single_review_has_no_history() {
    let batches = build_host_batches(vec![weighted(1.0, &[(3, 0.0)])], 8);
    assert_eq!(batches[0].seq, 0);
    assert!(batches[0].th.is_empty());
    assert_eq!(batches[0].dts, vec![single(0.0)]);
}

#[test]
fn all_reviews_are_laid_out_for_memory_states() {
    let h = items_to_histories(&vec![item(&[(3, 0.0), (4, 2.0)]), item(&[(1, 0.0)])]);
    assert_eq!((h.rows, h.columns), (2, 2));
    assert_eq!(h.ratings, vec![3, 1, 4, 0]);
}

#[test]
fn items_are_rebuilt_from_flat_arrays() {
    // Card 0 has three reviews, card 1 two, card 2 one, card 3 four with one not scored.
    let deltas: Vec<Single> =
        [0.0, 1.0, 2.0, 0.0, 5.0, 0.0, 0.0, 0.0, 3.0, 4.0].iter().map(|&x| single(x)).collect();
    let ratings = vec![3, 2, 1, 4, 3, 2, 1, 2, 3, 4];
    let review_ths = vec![0, 4, 9, 0, 2, 0, 0, 0, 4, 1];
    let offsets = vec![0, 3, 5, 6, 10];
    let (items, ids) = reconstruct_raw_items(&deltas, &ratings, &review_ths, &offsets);
    assert_eq!(ids, vec![3, 1, 0, 3, 0]);
    assert_eq!(items[0], item(&[(1, 0.0), (2, 0.0), (3, 3.0), (4, 4.0)]));
    assert_eq!(items[1], item(&[(4, 0.0), (3, 5.0)]));
    assert_eq!(items[2], item(&[(3, 0.0), (2, 1.0)]));
    assert_eq!(items[3], item(&[(1, 0.0), (2, 0.0), (3, 3.0)]));
    assert_eq!(items[4], item(&[(3, 0.0), (2, 1.0), (1, 2.0)]));
}

#[test]
fn negative_keys_come_first() {
    let deltas: Vec<Single> = vec![single(0.0); 4];
    let (_, ids) = reconstruct_raw_items(&deltas, &vec![3; 4], &vec![0, 5, 0, -5], &vec![0, 2, 4]);
    assert_eq!(ids, vec![1, 0]);
}

#[test]
fn no_cards_make_no_items() {
    for offsets in [vec![], vec![0], vec![0, 0]] {
        let (items, ids) = reconstruct_raw_items(&vec![], &vec![], &vec![], &offsets);
        assert!(items.is_empty() && ids.is_empty());
    }
}
