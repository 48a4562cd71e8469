//! Training sets: which items are trained on, with which weights, in which order.

use crate::order::{stable_order, Key};
use crate::outlier::filter_outlier;
use crate::review::{FSRSItem, FSRSReview};
use crate::single::Single;
use vstd::arithmetic::power2::*;
use vstd::prelude::*;

verus! {

/// An item with the weight of its loss.
#[derive(Debug)]
pub struct WeightedFSRSItem {
    /// The weight.
    pub weight: Single,
    /// The item.
    pub item: FSRSItem,
}

impl View for WeightedFSRSItem {
    type V = (Single, Seq<FSRSReview>);

    open spec fn view(&self) -> (Single, Seq<FSRSReview>) {
        (self.weight, self.item@)
    }
}

impl Clone for WeightedFSRSItem {
    fn clone(&self) -> (r: Self)
        ensures
            r@ == self@,
    {
        WeightedFSRSItem { weight: self.weight, item: self.item.clone() }
    }
}

/// The weight and the reviews of each item.
pub open spec fn weighted(items: Seq<WeightedFSRSItem>) -> Seq<(Single, Seq<FSRSReview>)> {
    Seq::new(items.len(), |i: int| items[i]@)
}

/// Whether an item has one long-term review, so that it shows initial stability.
pub open spec fn shows_initial_stability(item: Seq<FSRSReview>) -> bool {
    crate::review::long_term_reviews(item).len() == 1
}

/// The items that show initial stability.
pub open spec fn for_initialization(items: Seq<Seq<FSRSReview>>) -> Seq<Seq<FSRSReview>> {
    items.filter(|item: Seq<FSRSReview>| shows_initial_stability(item))
}

/// The items that do not show initial stability.
pub open spec fn not_for_initialization(items: Seq<Seq<FSRSReview>>) -> Seq<Seq<FSRSReview>> {
    items.filter(|item: Seq<FSRSReview>| !shows_initial_stability(item))
}

/// The items that stay in the training set where outliers are taken out of it.
pub open spec fn without_outliers(items: Seq<Seq<FSRSReview>>) -> Seq<Seq<FSRSReview>> {
    items.filter(
        |item: Seq<FSRSReview>| crate::outlier::stays(for_initialization(items), item),
    )
}

/// Whether the first rating of every item with a long-term review is a rating.
pub open spec fn rated(items: Seq<Seq<FSRSReview>>) -> bool {
    forall|i: int|
        0 <= i < items.len() && crate::review::long_term_reviews(#[trigger] items[i]).len() > 0
            ==> items[i][0].rating <= 4
}

/// Splits items into those for initialisation and those to train on.
///
/// Where outliers are kept, the items for initialisation are those that show initial
/// stability, and the others are trained on. Where they are not, all items but the
/// outliers are trained on.
pub fn prepare_training_data(items: Vec<FSRSItem>, keep_outliers: bool) -> (r: (
    Vec<FSRSItem>,
    Vec<FSRSItem>,
))
    requires
        !keep_outliers ==> rated(crate::review::views(items@)),
    ensures
        keep_outliers ==> {
            &&& crate::review::views(r.0@) == for_initialization(crate::review::views(items@))
            &&& crate::review::views(r.1@) == not_for_initialization(crate::review::views(items@))
        },
        !keep_outliers ==> {
            &&& exists|order: Seq<usize>| #[trigger]
                crate::outlier::by_group(
                    for_initialization(crate::review::views(items@)),
                    order,
                ) && crate::review::views(r.0@) == crate::outlier::picked(
                    for_initialization(crate::review::views(items@)),
                    order,
                )
            &&& crate::review::views(r.1@) == without_outliers(crate::review::views(items@))
        },
{
    let ghost all = crate::review::views(items@);
    let ghost shows = |item: Seq<FSRSReview>| shows_initial_stability(item);
    let ghost shows_not = |item: Seq<FSRSReview>| !shows_initial_stability(item);
    let mut dataset_for_initialization: Vec<FSRSItem> = Vec::new();
    let mut trainset: Vec<FSRSItem> = Vec::new();
    let mut i: usize = 0;
    proof {
        crate::picking::lemma_filter_none(all, shows);
        crate::picking::lemma_filter_none(all, shows_not);
    }
    while i < items.len()
        invariant
            i <= items@.len(),
            all == crate::review::views(items@),
            shows == (|item: Seq<FSRSReview>| shows_initial_stability(item)),
            shows_not == (|item: Seq<FSRSReview>| !shows_initial_stability(item)),
            crate::review::views(dataset_for_initialization@) == all.take(i as int).filter(shows),
            crate::review::views(trainset@) == all.take(i as int).filter(shows_not),
            forall|j: int|
                0 <= j < dataset_for_initialization@.len() ==> crate::review::long_term_reviews(
                    #[trigger] dataset_for_initialization@[j]@,
                ).len() == 1,
        decreases items@.len() - i,
    {
        proof {
            crate::picking::lemma_filter_step(all, i as int, shows);
            crate::picking::lemma_filter_step(all, i as int, shows_not);
        }
        if items[i].long_term_review_cnt() == 1 {
            dataset_for_initialization.push(items[i].clone());
        } else {
            trainset.push(items[i].clone());
        }
        i += 1;
        assert(crate::review::views(dataset_for_initialization@) =~= all.take(i as int).filter(
            shows,
        ));
        assert(crate::review::views(trainset@) =~= all.take(i as int).filter(shows_not));
    }
    assert(all.take(i as int) =~= all);
    if keep_outliers {
        (dataset_for_initialization, trainset)
    } else {
        proof {
            lemma_picked_are_rated(all);
        }
        filter_outlier(dataset_for_initialization, items)
    }
}

proof fn lemma_picked_are_rated(items: Seq<Seq<FSRSReview>>)
    requires
        rated(items),
    ensures
        crate::outlier::rated(for_initialization(items), items),
{
    let shows = |item: Seq<FSRSReview>| shows_initial_stability(item);
    let data = for_initialization(items);
    assert forall|i: int| 0 <= i < data.len() implies (#[trigger] data[i])[0].rating <= 4 by {
        items.lemma_filter_pred(shows, i);
        assert(items.filter(shows).contains(data[i]));
        items.lemma_filter_contains_rev(shows, data[i]);
        let j = choose|j: int| 0 <= j < items.len() && items[j] == data[i];
        assert(items[j] == data[i]);
    }
}

/// Gives each item the weight that `weight_of` computes from its place, oldest first, and
/// the number of items.
pub fn recency_weighted_fsrs_items<F: Fn(usize, usize) -> Single>(
    items: Vec<FSRSItem>,
    weight_of: F,
) -> (r: Vec<WeightedFSRSItem>)
    requires
        forall|i: usize|
            i < items@.len() ==> #[trigger] call_requires(weight_of, (i, items.len())),
    ensures
        r@.len() == items@.len(),
        forall|i: int| 0 <= i < r@.len() ==> (#[trigger] r@[i]).item@ == items@[i]@,
        forall|i: int|
            0 <= i < r@.len() ==> call_ensures(
                weight_of,
                (i as usize, items.len()),
                (#[trigger] r@[i]).weight,
            ),
{
    let mut r: Vec<WeightedFSRSItem> = Vec::with_capacity(items.len());
    let mut i: usize = 0;
    while i < items.len()
        invariant
            i <= items@.len(),
            r@.len() == i,
            forall|j: usize|
                j < items@.len() ==> #[trigger] call_requires(weight_of, (j, items.len())),
            forall|j: int| 0 <= j < i ==> (#[trigger] r@[j]).item@ == items@[j]@,
            forall|j: int|
                0 <= j < i ==> call_ensures(
                    weight_of,
                    (j as usize, items.len()),
                    (#[trigger] r@[j]).weight,
                ),
        decreases items@.len() - i,
    {
        let weight = weight_of(i, items.len());
        r.push(WeightedFSRSItem { weight, item: items[i].clone() });
        i += 1;
    }
    r
}

/// The items with at most `max_seq_len` reviews.
pub open spec fn no_longer_than(
    items: Seq<(Single, Seq<FSRSReview>)>,
    max_seq_len: nat,
) -> Seq<(Single, Seq<FSRSReview>)> {
    items.filter(|item: (Single, Seq<FSRSReview>)| item.1.len() <= max_seq_len)
}

/// Leaves out the items with more than `max_seq_len` reviews.
pub fn retain_short(items: Vec<WeightedFSRSItem>, max_seq_len: usize) -> (r: Vec<WeightedFSRSItem>)
    ensures
        weighted(r@) == no_longer_than(weighted(items@), max_seq_len as nat),
{
    let ghost all = weighted(items@);
    let ghost short = |item: (Single, Seq<FSRSReview>)| item.1.len() <= max_seq_len as nat;
    let mut r: Vec<WeightedFSRSItem> = Vec::new();
    let mut i: usize = 0;
    proof {
        crate::picking::lemma_filter_none(all, short);
    }
    while i < items.len()
        invariant
            i <= items@.len(),
            all == weighted(items@),
            short == (|item: (Single, Seq<FSRSReview>)| item.1.len() <= max_seq_len as nat),
            weighted(r@) == all.take(i as int).filter(short),
        decreases items@.len() - i,
    {
        proof {
            crate::picking::lemma_filter_step(all, i as int, short);
        }
        if items[i].item.reviews.len() <= max_seq_len {
            r.push(items[i].clone());
        }
        i += 1;
        assert(weighted(r@) =~= all.take(i as int).filter(short));
    }
    assert(all.take(i as int) =~= all);
    r
}

/// What items are sorted by: the number of their reviews.
pub open spec fn lengths(items: Seq<(Single, Seq<FSRSReview>)>) -> Seq<Key> {
    Seq::new(items.len(), |i: int| (items[i].1.len() as u64, 0u64, 0u64))
}

/// Items in the order given.
pub open spec fn arranged(
    items: Seq<(Single, Seq<FSRSReview>)>,
    order: Seq<usize>,
) -> Seq<(Single, Seq<FSRSReview>)> {
    order.map_values(|place: usize| items[place as int])
}

/// Whether `sorted` holds `items` sorted by the number of their reviews, those with as
/// many in the order in which they stood.
pub open spec fn sorted_by_length(
    items: Seq<(Single, Seq<FSRSReview>)>,
    sorted: Seq<(Single, Seq<FSRSReview>)>,
) -> bool {
    exists|order: Seq<usize>| #[trigger]
        crate::order::stable(lengths(items), order) && sorted == arranged(items, order)
}

/// Sorts items by the number of their reviews; the sort is stable.
pub fn sort_items_by_review_length(weighted_items: Vec<WeightedFSRSItem>) -> (r: Vec<
    WeightedFSRSItem,
>)
    ensures
        sorted_by_length(weighted(weighted_items@), weighted(r@)),
{
    let ghost all = weighted(weighted_items@);
    let mut keys: Vec<Key> = Vec::with_capacity(weighted_items.len());
    let mut i: usize = 0;
    while i < weighted_items.len()
        invariant
            i <= weighted_items@.len(),
            all == weighted(weighted_items@),
            keys@ == lengths(all).take(i as int),
        decreases weighted_items@.len() - i,
    {
        keys.push((weighted_items[i].item.reviews.len() as u64, 0, 0));
        i += 1;
        assert(lengths(all).take(i as int) =~= lengths(all).take(i - 1).push(lengths(all)[i - 1]));
    }
    assert(lengths(all).take(i as int) =~= lengths(all));
    let order = stable_order(&keys);
    let mut r: Vec<WeightedFSRSItem> = Vec::with_capacity(weighted_items.len());
    let mut j: usize = 0;
    while j < order.len()
        invariant
            j <= order@.len(),
            all == weighted(weighted_items@),
            crate::order::stable(lengths(all), order@),
            weighted(r@) == arranged(all, order@).take(j as int),
        decreases order@.len() - j,
    {
        let ghost before = r@;
        r.push(weighted_items[order[j]].clone());
        assert(weighted(r@) =~= weighted(before).push(arranged(all, order@)[j as int]));
        assert(arranged(all, order@).take(j + 1) =~= arranged(all, order@).take(j as int).push(
            arranged(all, order@)[j as int],
        ));
        j += 1;
    }
    assert(arranged(all, order@).take(j as int) =~= arranged(all, order@));
    r
}

/// Sorting by length loses and repeats no item: there is one way to do it, and it leaves
/// lengths that do not fall.
pub proof fn law_sorting_by_length(
    items: Seq<(Single, Seq<FSRSReview>)>,
    a: Seq<(Single, Seq<FSRSReview>)>,
    b: Seq<(Single, Seq<FSRSReview>)>,
)
    requires
        sorted_by_length(items, a),
        sorted_by_length(items, b),
        forall|i: int| 0 <= i < items.len() ==> (#[trigger] items[i]).1.len() <= usize::MAX,
    ensures
        a == b,
        a.len() == items.len(),
        forall|i: int, j: int| 0 <= i < j < a.len() ==> (#[trigger] a[i]).1.len() <= (#[trigger] a[j]).1.len(),
        forall|i: int| 0 <= i < items.len() ==> a.contains(#[trigger] items[i]),
{
    let p = choose|order: Seq<usize>| #[trigger]
        crate::order::stable(lengths(items), order) && a == arranged(items, order);
    let q = choose|order: Seq<usize>| #[trigger]
        crate::order::stable(lengths(items), order) && b == arranged(items, order);
    crate::order::law_stable_order_is_unique(lengths(items), p, q);
    crate::order::law_stable_order_is_a_permutation(lengths(items), p);
    assert forall|i: int, j: int| 0 <= i < j < a.len() implies (#[trigger] a[i]).1.len() <= (#[trigger] a[j]).1.len() by {
        assert(crate::order::precedes(lengths(items), p[i] as int, p[j] as int));
    }
    assert forall|i: int| 0 <= i < items.len() implies a.contains(#[trigger] items[i]) by {
        assert(crate::order::lists(p, i));
        let k = choose|k: int| 0 <= k < p.len() && #[trigger] p[k] == i;
        assert(a[k] == items[i]);
    }
}

/// Sorting by length puts the items in one order: by the number of their reviews, the
/// shortest first, and those with as many as they stood. Each item comes once.
pub proof fn law_sorting_by_length_is_stable(
    items: Seq<(Single, Seq<FSRSReview>)>,
    sorted: Seq<(Single, Seq<FSRSReview>)>,
)
    requires
        sorted_by_length(items, sorted),
        forall|i: int| 0 <= i < items.len() ==> (#[trigger] items[i]).1.len() <= usize::MAX,
    ensures
        sorted.len() == items.len(),
        exists|order: Seq<usize>|
            #![trigger order.no_duplicates()]
            order.len() == items.len() && order.no_duplicates() && (forall|k: int|
                0 <= k < order.len() ==> #[trigger] order[k] < items.len() && sorted[k]
                    == items[order[k] as int]) && forall|j: int, k: int|
                0 <= j < k < order.len() ==> {
                    let a = #[trigger] order[j];
                    let b = #[trigger] order[k];
                    items[a as int].1.len() < items[b as int].1.len() || (items[a as int].1.len()
                        == items[b as int].1.len() && a < b)
                },
{
    let order = choose|order: Seq<usize>| #[trigger]
        crate::order::stable(lengths(items), order) && sorted == arranged(items, order);
    assert forall|j: int, k: int| 0 <= j < k < order.len() implies {
        let a = #[trigger] order[j];
        let b = #[trigger] order[k];
        items[a as int].1.len() < items[b as int].1.len() || (items[a as int].1.len()
            == items[b as int].1.len() && a < b)
    } by {
        assert(crate::order::precedes(lengths(items), order[j] as int, order[k] as int));
    }
    assert(order.no_duplicates()) by {
        assert forall|j: int, k: int| 0 <= j < order.len() && 0 <= k < order.len() && j != k implies order[j]
            != order[k] by {
            if j < k {
                assert(crate::order::precedes(lengths(items), order[j] as int, order[k] as int));
            } else {
                assert(crate::order::precedes(lengths(items), order[k] as int, order[j] as int));
            }
        }
    }
}

/// Items with exactly one long-term review show initial stability and are set apart for it,
/// and all others are not; none is in both lists, and none is lost.
pub proof fn law_what_is_set_apart(items: Seq<Seq<FSRSReview>>, item: Seq<FSRSReview>)
    ensures
        ({
            let once = crate::order::count(
                item.len(),
                |i: int| !item[i].delta_t.nan() && item[i].delta_t.value() >= pow2(149),
            ) == 1;
            &&& for_initialization(items).contains(item) <==> items.contains(item) && once
            &&& not_for_initialization(items).contains(item) <==> items.contains(item) && !once
            &&& for_initialization(items).len() + not_for_initialization(items).len() == items.len()
        }),
{
    let wanted = |review: FSRSReview| crate::review::long_term(review);
    let late = |i: int| !item[i].delta_t.nan() && item[i].delta_t.value() >= pow2(149);
    crate::single::lemma_one();
    crate::picking::lemma_filter_counts(item, wanted, late);
    let shows = |item: Seq<FSRSReview>| shows_initial_stability(item);
    let hides = |item: Seq<FSRSReview>| !shows_initial_stability(item);
    crate::picking::lemma_filter_picks(items, shows);
    crate::picking::lemma_filter_picks(items, hides);
    lemma_split(items);
}

proof fn lemma_split(items: Seq<Seq<FSRSReview>>)
    ensures
        for_initialization(items).len() + not_for_initialization(items).len() == items.len(),
    decreases items.len(),
{
    reveal(Seq::filter);
    if items.len() > 0 {
        lemma_split(items.drop_last());
    }
}

/// Items are left out for their length if and only if they have more reviews than the limit:
/// those with exactly as many stay. The items that stay keep their order and their weights.
pub proof fn law_what_is_too_long(
    items: Seq<(Single, Seq<FSRSReview>)>,
    max_seq_len: nat,
    item: (Single, Seq<FSRSReview>),
)
    ensures
        no_longer_than(items, max_seq_len).contains(item) <==> items.contains(item) && item.1.len()
            <= max_seq_len,
        (forall|i: int| 0 <= i < items.len() ==> (#[trigger] items[i]).1.len() <= max_seq_len)
            ==> no_longer_than(items, max_seq_len) == items,
        no_longer_than(items.push(item), max_seq_len) == if item.1.len() <= max_seq_len {
            no_longer_than(items, max_seq_len).push(item)
        } else {
            no_longer_than(items, max_seq_len)
        },
{
    let short = |item: (Single, Seq<FSRSReview>)| item.1.len() <= max_seq_len;
    let any = |item: (Single, Seq<FSRSReview>)| true;
    crate::picking::lemma_filter_picks(items, short);
    if forall|i: int| 0 <= i < items.len() ==> (#[trigger] items[i]).1.len() <= max_seq_len {
        crate::picking::lemma_filters_agree(items, short, any);
        lemma_all_picked(items);
    }
    let more = items.push(item);
    crate::picking::lemma_filter_step(more, items.len() as int, short);
    assert(more.take(items.len() as int + 1) =~= more);
    assert(more.take(items.len() as int) =~= items);
}

proof fn lemma_all_picked(items: Seq<(Single, Seq<FSRSReview>)>)
    ensures
        items.filter(|item: (Single, Seq<FSRSReview>)| true) == items,
    decreases items.len(),
{
    reveal(Seq::filter);
    if items.len() > 0 {
        lemma_all_picked(items.drop_last());
        assert(items.drop_last().push(items.last()) =~= items);
    } else {
        assert(items =~= Seq::empty());
    }
}

/// Where outliers are taken out, exactly those items are lost whose group is an outlier
/// among the items that show initial stability; the others keep their order.
pub proof fn law_outliers_alone_are_lost(items: Seq<Seq<FSRSReview>>, item: Seq<FSRSReview>)
    ensures
        without_outliers(items).contains(item) <==> items.contains(item) && crate::outlier::stays(
            for_initialization(items),
            item,
        ),
        without_outliers(items).len() <= items.len(),
{
    crate::picking::lemma_filter_picks(
        items,
        |item: Seq<FSRSReview>| crate::outlier::stays(for_initialization(items), item),
    );
}

} // verus!
