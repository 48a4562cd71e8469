//! Compact training data: the full reviews of each card in flat arrays, from which the
//! items are rebuilt.
//!
//! Card `c` has the reviews `offsets[c]` to `offsets[c + 1]`. Review `j` of a card, the
//! first one left out, is scored where its key is not 0; the item of a scored review
//! holds the card's reviews up to it.

use crate::order::{stable_order, Key};
use crate::review::{FSRSItem, FSRSReview};
use crate::single::Single;
use vstd::prelude::*;

verus! {

/// The number of cards.
pub open spec fn card_count(offsets: Seq<usize>) -> int {
    if offsets.len() == 0 {
        0
    } else {
        offsets.len() - 1
    }
}

/// Whether review `j` of card `c` is scored.
pub open spec fn scored(review_ths: Seq<i64>, offsets: Seq<usize>, c: int, j: int) -> bool {
    &&& 0 <= c < card_count(offsets)
    &&& 1 <= j < offsets[c + 1] - offsets[c]
    &&& review_ths[offsets[c] + j] != 0
}

/// The reviews of card `c` up to review `j`.
pub open spec fn head(
    deltas: Seq<Single>,
    ratings: Seq<u32>,
    offsets: Seq<usize>,
    c: int,
    j: int,
) -> Seq<FSRSReview> {
    Seq::new(
        (j + 1) as nat,
        |i: int| (FSRSReview { rating: ratings[offsets[c] + i], delta_t: deltas[offsets[c] + i] }),
    )
}

/// Whether there is a key for every review of card `c`, where it has more than one.
pub open spec fn keyed(review_ths: Seq<i64>, offsets: Seq<usize>, c: int) -> bool {
    offsets[c + 1] - offsets[c] > 1 ==> offsets[c + 1] <= review_ths.len()
}

/// Whether the arrays hold the reviews that are read: the offsets do not fall, there is a
/// key for every review that can be scored, and a rating and an interval for every one
/// that is.
pub open spec fn complete(
    deltas: Seq<Single>,
    ratings: Seq<u32>,
    review_ths: Seq<i64>,
    offsets: Seq<usize>,
) -> bool {
    &&& forall|c: int, d: int|
        0 <= c <= d < offsets.len() ==> #[trigger] offsets[c] <= #[trigger] offsets[d]
    &&& forall|c: int| 0 <= c < card_count(offsets) ==> #[trigger] keyed(review_ths, offsets, c)
    &&& forall|c: int, j: int| #[trigger]
        scored(review_ths, offsets, c, j) ==> offsets[c] + j < ratings.len() && offsets[c] + j
            < deltas.len()
}

/// Whether the scored review `a` of some card comes before the scored review `b`: by key,
/// then by card, then by place in the card.
pub open spec fn earlier(
    review_ths: Seq<i64>,
    offsets: Seq<usize>,
    a: (usize, usize),
    b: (usize, usize),
) -> bool {
    let key_a = review_ths[offsets[a.0 as int] + a.1];
    let key_b = review_ths[offsets[b.0 as int] + b.1];
    key_a < key_b || (key_a == key_b && (a.0 < b.0 || (a.0 == b.0 && a.1 < b.1)))
}

/// Whether `places` lists every scored review, card and place, one before the other.
pub open spec fn lists_scored(
    review_ths: Seq<i64>,
    offsets: Seq<usize>,
    places: Seq<(usize, usize)>,
) -> bool {
    &&& forall|i: int|
        0 <= i < places.len() ==> scored(
            review_ths,
            offsets,
            (#[trigger] places[i]).0 as int,
            places[i].1 as int,
        )
    &&& forall|i: int, j: int|
        0 <= i < j < places.len() ==> earlier(
            review_ths,
            offsets,
            #[trigger] places[i],
            #[trigger] places[j],
        )
    &&& forall|c: int, j: int| #[trigger]
        scored(review_ths, offsets, c, j) ==> places.contains((c as usize, j as usize))
}

spec fn entered(
    review_ths: Seq<i64>,
    offsets: Seq<usize>,
    places: Seq<(usize, usize)>,
    cards: int,
    reviews: int,
) -> bool {
    &&& forall|i: int|
        0 <= i < places.len() ==> scored(
            review_ths,
            offsets,
            (#[trigger] places[i]).0 as int,
            places[i].1 as int,
        ) && (places[i].0 < cards || (places[i].0 == cards && places[i].1 < reviews))
    &&& forall|i: int, j: int|
        0 <= i < j < places.len() ==> {
            let a = #[trigger] places[i];
            let b = #[trigger] places[j];
            a.0 < b.0 || (a.0 == b.0 && a.1 < b.1)
        }
    &&& forall|c: int, j: int| #[trigger]
        scored(review_ths, offsets, c, j) && (c < cards || (c == cards && j < reviews))
            ==> places.contains((c as usize, j as usize))
}

/// The scored reviews, card by card.
fn scored_places(review_ths: &Vec<i64>, card_offsets: &Vec<usize>, Ghost(deltas): Ghost<
    Seq<Single>,
>, Ghost(ratings): Ghost<Seq<u32>>) -> (r: Vec<(usize, usize)>)
    requires
        complete(deltas, ratings, review_ths@, card_offsets@),
    ensures
        entered(review_ths@, card_offsets@, r@, card_count(card_offsets@), 0),
{
    let n_cards: usize = if card_offsets.len() == 0 {
        0
    } else {
        card_offsets.len() - 1
    };
    let mut places: Vec<(usize, usize)> = Vec::new();
    let mut c: usize = 0;
    while c < n_cards
        invariant
            c <= n_cards,
            n_cards == card_count(card_offsets@),
            complete(deltas, ratings, review_ths@, card_offsets@),
            entered(review_ths@, card_offsets@, places@, c as int, 0),
        decreases n_cards - c,
    {
        let s: usize = card_offsets[c];
        let e: usize = card_offsets[c + 1];
        let k: usize = e - s;
        let mut j: usize = 1;
        proof {
            assert(keyed(review_ths@, card_offsets@, c as int));
            assert(entered(review_ths@, card_offsets@, places@, c as int, 1));
        }
        while j < k
            invariant
                1 <= j,
                k >= 1 ==> j <= k,
                c < n_cards,
                n_cards == card_count(card_offsets@),
                s == card_offsets@[c as int],
                k == card_offsets@[c + 1] - card_offsets@[c as int],
                k > 1 ==> s + k <= review_ths@.len(),
                complete(deltas, ratings, review_ths@, card_offsets@),
                entered(review_ths@, card_offsets@, places@, c as int, j as int),
            decreases k - j,
        {
            let ghost before = places@;
            if review_ths[s + j] != 0 {
                places.push((c, j));
                assert(places@[places@.len() - 1] == (c, j));
            }
            proof {
                assert forall|d: int, l: int| #[trigger]
                    scored(review_ths@, card_offsets@, d, l) && (d < c || (d == c && l < j + 1)) implies places@.contains(
                (d as usize, l as usize)) by {
                    if d == c && l == j {
                    } else {
                        assert(before.contains((d as usize, l as usize)));
                        let i = choose|i: int| 0 <= i < before.len() && before[i] == (d as usize, l as usize);
                        assert(places@[i] == before[i]);
                    }
                }
            }
            j += 1;
        }
        c += 1;
    }
    places
}

fn order_key(key: i64) -> (r: u64)
    ensures
        r == key + 0x8000_0000_0000_0000,
{
    (key as i128 + 0x8000_0000_0000_0000) as u64
}

/// Rebuilds the items, each with the number of its card, sorted by key; items with the
/// same key stay in the order of their cards and reviews.
pub fn reconstruct_raw_items(
    deltas: &Vec<Single>,
    ratings: &Vec<u32>,
    review_ths: &Vec<i64>,
    card_offsets: &Vec<usize>,
) -> (r: (Vec<FSRSItem>, Vec<i64>))
    requires
        complete(deltas@, ratings@, review_ths@, card_offsets@),
        card_offsets@.len() <= i64::MAX,
    ensures
        exists|places: Seq<(usize, usize)>| #[trigger]
            lists_scored(review_ths@, card_offsets@, places) && r.0@.len() == places.len()
                && r.1@.len() == places.len() && forall|i: int|
                0 <= i < places.len() ==> (#[trigger] r.0@[i])@ == head(
                    deltas@,
                    ratings@,
                    card_offsets@,
                    places[i].0 as int,
                    places[i].1 as int,
                ) && r.1@[i] == places[i].0,
{
    let places = scored_places(review_ths, card_offsets, Ghost(deltas@), Ghost(ratings@));
    let mut keys: Vec<Key> = Vec::with_capacity(places.len());
    let mut i: usize = 0;
    while i < places.len()
        invariant
            i <= places@.len(),
            complete(deltas@, ratings@, review_ths@, card_offsets@),
            entered(review_ths@, card_offsets@, places@, card_count(card_offsets@), 0),
            keys@.len() == i,
            forall|l: int|
                0 <= l < i ==> #[trigger] keys@[l] == (
                    (review_ths@[card_offsets@[places@[l].0 as int] + places@[l].1] + 0x8000_0000_0000_0000) as u64,
                    0u64,
                    0u64,
                ),
        decreases places@.len() - i,
    {
        let (c, j) = places[i];
        assert(scored(review_ths@, card_offsets@, places@[i as int].0 as int, places@[i as int].1 as int));
        assert(keyed(review_ths@, card_offsets@, c as int));
        keys.push((order_key(review_ths[card_offsets[c] + j]), 0, 0));
        i += 1;
    }
    let order = stable_order(&keys);
    let ghost sorted = order@.map_values(|place: usize| places@[place as int]);
    proof {
        assert forall|a: int, b: int| 0 <= a < b < sorted.len() implies earlier(
            review_ths@,
            card_offsets@,
            #[trigger] sorted[a],
            #[trigger] sorted[b],
        ) by {
            assert(crate::order::precedes(keys@, order@[a] as int, order@[b] as int));
        }
        crate::order::law_stable_order_is_a_permutation(keys@, order@);
        assert forall|c: int, j: int| #[trigger] scored(review_ths@, card_offsets@, c, j) implies sorted.contains(
        (c as usize, j as usize)) by {
            assert(places@.contains((c as usize, j as usize)));
            let p = choose|p: int| 0 <= p < places@.len() && places@[p] == (c as usize, j as usize);
            assert(crate::order::lists(order@, p));
            let q = choose|q: int| 0 <= q < order@.len() && #[trigger] order@[q] == p;
            assert(sorted[q] == (c as usize, j as usize));
        }
        assert forall|i: int| 0 <= i < sorted.len() implies scored(
            review_ths@,
            card_offsets@,
            (#[trigger] sorted[i]).0 as int,
            sorted[i].1 as int,
        ) by {
            assert(places@[order@[i] as int] == sorted[i]);
        }
        assert(lists_scored(review_ths@, card_offsets@, sorted));
    }
    let mut items: Vec<FSRSItem> = Vec::with_capacity(places.len());
    let mut card_ids: Vec<i64> = Vec::with_capacity(places.len());
    let mut m: usize = 0;
    while m < order.len()
        invariant
            m <= order@.len(),
            crate::order::stable(keys@, order@),
            keys@.len() == places@.len(),
            card_offsets@.len() <= i64::MAX,
            sorted == order@.map_values(|place: usize| places@[place as int]),
            complete(deltas@, ratings@, review_ths@, card_offsets@),
            lists_scored(review_ths@, card_offsets@, sorted),
            items@.len() == m,
            card_ids@.len() == m,
            forall|l: int|
                0 <= l < m ==> (#[trigger] items@[l])@ == head(
                    deltas@,
                    ratings@,
                    card_offsets@,
                    sorted[l].0 as int,
                    sorted[l].1 as int,
                ) && card_ids@[l] == sorted[l].0,
        decreases order@.len() - m,
    {
        let (c, j) = places[order[m]];
        proof {
            assert(sorted[m as int] == (c, j));
            assert(scored(review_ths@, card_offsets@, c as int, j as int));
        }
        let s: usize = card_offsets[c];
        let ghost whole = head(deltas@, ratings@, card_offsets@, c as int, j as int);
        let mut reviews: Vec<FSRSReview> = Vec::with_capacity(j + 1);
        let mut i: usize = 0;
        while i <= j
            invariant
                i <= j + 1,
                s == card_offsets@[c as int],
                s + j < ratings.len(),
                s + j < deltas.len(),
                whole == head(deltas@, ratings@, card_offsets@, c as int, j as int),
                reviews@ == whole.take(i as int),
            decreases j + 1 - i,
        {
            reviews.push(FSRSReview { rating: ratings[s + i], delta_t: deltas[s + i] });
            i += 1;
            assert(whole.take(i as int) =~= whole.take(i - 1).push(whole[i - 1]));
        }
        assert(whole.take(i as int) =~= whole);
        items.push(FSRSItem { reviews });
        card_ids.push(c as i64);
        m += 1;
    }
    (items, card_ids)
}

/// There is one list of the scored reviews in order, so that what
/// `reconstruct_raw_items` returns is one list.
pub proof fn law_scored_reviews_have_one_order(
    review_ths: Seq<i64>,
    offsets: Seq<usize>,
    a: Seq<(usize, usize)>,
    b: Seq<(usize, usize)>,
)
    requires
        lists_scored(review_ths, offsets, a),
        lists_scored(review_ths, offsets, b),
    ensures
        a == b,
{
    lemma_same_start(review_ths, offsets, a, b, a.len() as int);
    lemma_same_start(review_ths, offsets, b, a, b.len() as int);
    assert(a =~= b);
}

proof fn lemma_same_start(
    review_ths: Seq<i64>,
    offsets: Seq<usize>,
    a: Seq<(usize, usize)>,
    b: Seq<(usize, usize)>,
    m: int,
)
    requires
        lists_scored(review_ths, offsets, a),
        lists_scored(review_ths, offsets, b),
        0 <= m <= a.len(),
    ensures
        m <= b.len(),
        forall|i: int| 0 <= i < m ==> a[i] == b[i],
    decreases m,
{
    if m > 0 {
        lemma_same_start(review_ths, offsets, a, b, m - 1);
        let x = a[m - 1];
        assert(scored(review_ths, offsets, x.0 as int, x.1 as int));
        assert(b.contains(((x.0 as int) as usize, (x.1 as int) as usize)));
        let i = choose|i: int| 0 <= i < b.len() && b[i] == x;
        if i < m - 1 {
            assert(a[i] == x);
            assert(earlier(review_ths, offsets, a[i], a[m - 1]));
        }
        let y = b[m - 1];
        assert(scored(review_ths, offsets, y.0 as int, y.1 as int));
        assert(a.contains(((y.0 as int) as usize, (y.1 as int) as usize)));
        let j = choose|j: int| 0 <= j < a.len() && a[j] == y;
        if j < m - 1 {
            assert(b[j] == y);
            assert(earlier(review_ths, offsets, b[j], b[m - 1]));
        }
        if x != y {
            assert(earlier(review_ths, offsets, b[m - 1], b[i]));
            assert(earlier(review_ths, offsets, a[m - 1], a[j]));
        }
    }
}

/// The item of a scored review stands for that review, and its history is the reviews of
/// the card before it, of which there is at least one.
pub proof fn law_items_are_heads_of_their_cards(
    deltas: Seq<Single>,
    ratings: Seq<u32>,
    offsets: Seq<usize>,
    c: int,
    j: int,
)
    requires
        j >= 1,
    ensures
        head(deltas, ratings, offsets, c, j).len() == j + 1 >= 2,
        head(deltas, ratings, offsets, c, j).drop_last() == head(deltas, ratings, offsets, c, j - 1),
        head(deltas, ratings, offsets, c, j).last().rating == ratings[offsets[c] + j],
        head(deltas, ratings, offsets, c, j).last().delta_t == deltas[offsets[c] + j],
{
    assert(head(deltas, ratings, offsets, c, j).drop_last() =~= head(
        deltas,
        ratings,
        offsets,
        c,
        j - 1,
    ));
}

/// What becomes an item: every review of a card but its first, where its key is not 0; and
/// nothing else. Each becomes one item.
pub proof fn law_what_becomes_an_item(
    review_ths: Seq<i64>,
    offsets: Seq<usize>,
    places: Seq<(usize, usize)>,
    c: usize,
    j: usize,
)
    requires
        lists_scored(review_ths, offsets, places),
    ensures
        places.contains((c, j)) <==> c + 1 < offsets.len() && j >= 1 && offsets[c as int] + j
            < offsets[c + 1] && review_ths[offsets[c as int] + j] != 0,
        places.no_duplicates(),
{
    if places.contains((c, j)) {
        let i = choose|i: int| 0 <= i < places.len() && places[i] == (c, j);
        assert(scored(review_ths, offsets, places[i].0 as int, places[i].1 as int));
    }
    if c + 1 < offsets.len() && j >= 1 && offsets[c as int] + j < offsets[c + 1]
        && review_ths[offsets[c as int] + j] != 0 {
        assert(scored(review_ths, offsets, c as int, j as int));
    }
    assert forall|a: int, b: int| 0 <= a < places.len() && 0 <= b < places.len() && a != b implies places[a]
        != places[b] by {
        if a < b {
            assert(earlier(review_ths, offsets, places[a], places[b]));
        } else {
            assert(earlier(review_ths, offsets, places[b], places[a]));
        }
    }
}

/// Items come in the order of their keys, negative ones first; with the same key in the order
/// of their cards, and those of a card as they were done.
pub proof fn law_items_come_by_key(
    review_ths: Seq<i64>,
    offsets: Seq<usize>,
    places: Seq<(usize, usize)>,
    a: int,
    b: int,
)
    requires
        lists_scored(review_ths, offsets, places),
        0 <= a < b < places.len(),
    ensures
        ({
            let (c, i) = places[a];
            let (d, j) = places[b];
            let first = review_ths[offsets[c as int] + i];
            let second = review_ths[offsets[d as int] + j];
            &&& first <= second
            &&& first == second ==> c <= d
            &&& first == second && c == d ==> i < j
        }),
{
    assert(earlier(review_ths, offsets, places[a], places[b]));
}

/// The item of review `j` of card `c` has the reviews of the card from its first to that one,
/// each with its own rating and interval.
pub proof fn law_items_hold_the_reviews_of_their_card(
    deltas: Seq<Single>,
    ratings: Seq<u32>,
    offsets: Seq<usize>,
    c: int,
    j: int,
    i: int,
)
    requires
        0 <= i <= j,
    ensures
        head(deltas, ratings, offsets, c, j).len() == j + 1,
        head(deltas, ratings, offsets, c, j)[i].rating == ratings[offsets[c] + i],
        head(deltas, ratings, offsets, c, j)[i].delta_t == deltas[offsets[c] + i],
{
}

} // verus!
