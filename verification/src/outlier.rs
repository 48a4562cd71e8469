//! Taking outliers out of a training set.
//!
//! Items are grouped by the rating of their first review and by the whole days before
//! their first long-term review. Within a rating, the smallest groups are outliers, and
//! so are groups with few items or with a long interval.

use crate::order::{stable_order, Key};
use crate::review::{bucket_long_term_delta_t, FSRSItem, FSRSReview};
use crate::single::Single;
use std::collections::HashSet;
use vstd::arithmetic::power2::*;
use vstd::prelude::*;

verus! {

/// The group of an item: the rating of its first review, and the whole days before its
/// first long-term review.
pub open spec fn group(item: Seq<FSRSReview>) -> (int, int) {
    (
        item[0].rating as int,
        crate::review::whole_days(crate::review::long_term_reviews(item).first().delta_t),
    )
}

/// How many items are in group `g`.
pub open spec fn size(data: Seq<Seq<FSRSReview>>, g: (int, int)) -> nat {
    crate::order::count(data.len(), |i: int| group(data[i]) == g)
}

/// The places of the items with a first rating of `rating`.
pub open spec fn of_rating(data: Seq<Seq<FSRSReview>>, rating: int) -> spec_fn(int) -> bool {
    |i: int| group(data[i]).0 == rating
}

/// How many items have a first rating of `rating`.
pub open spec fn total(data: Seq<Seq<FSRSReview>>, rating: int) -> nat {
    crate::order::count(data.len(), of_rating(data, rating))
}

/// Whether group `a` comes no later than group `b` among the groups of a rating: smaller
/// groups come first, then shorter intervals.
pub open spec fn not_after(data: Seq<Seq<FSRSReview>>, a: (int, int), b: (int, int)) -> bool {
    size(data, a) < size(data, b) || (size(data, a) == size(data, b) && a.1 <= b.1)
}

/// How many items of the rating of `g` are in groups up to `g`.
pub open spec fn reach(data: Seq<Seq<FSRSReview>>, g: (int, int)) -> nat {
    crate::order::count(
        data.len(),
        |i: int| group(data[i]).0 == g.0 && not_after(data, group(data[i]), g),
    )
}

/// How many items of a rating the groups up to a group must hold for it to be kept: one
/// in twenty, and at least 20.
pub open spec fn limit(data: Seq<Seq<FSRSReview>>, rating: int) -> int {
    let part = total(data, rating) as int / 20;
    if part < 20 {
        20
    } else {
        part
    }
}

/// Whether group `g` is no outlier: it is not among the smallest, holds six items or
/// more, and its interval is at most 100 days (365 after an Easy).
pub open spec fn kept(data: Seq<Seq<FSRSReview>>, g: (int, int)) -> bool {
    &&& reach(data, g) >= limit(data, g.0)
    &&& size(data, g) >= 6
    &&& g.1 <= if g.0 != 4 {
        100int
    } else {
        365
    }
}

/// Whether group `g` has items and is an outlier.
pub open spec fn removed(data: Seq<Seq<FSRSReview>>, g: (int, int)) -> bool {
    size(data, g) > 0 && !kept(data, g)
}

/// Whether the item in place `a` comes before the one in place `b`: by rating, then by
/// the size of the group, then by the days, then as they stood.
pub open spec fn before(data: Seq<Seq<FSRSReview>>, a: int, b: int) -> bool {
    let g = group(data[a]);
    let h = group(data[b]);
    g.0 < h.0 || (g.0 == h.0 && (size(data, g) < size(data, h) || (size(data, g) == size(data, h) && (
    g.1 < h.1 || (g.1 == h.1 && a < b)))))
}

/// Whether `order` lists the places of `data` group by group, as `before` has them.
pub open spec fn by_group(data: Seq<Seq<FSRSReview>>, order: Seq<usize>) -> bool {
    &&& order.len() == data.len()
    &&& forall|i: int| 0 <= i < order.len() ==> #[trigger] order[i] < data.len()
    &&& forall|i: int, j: int|
        0 <= i < j < order.len() ==> before(data, #[trigger] order[i] as int, #[trigger] order[j] as int)
}

/// The places of the items that are kept.
pub open spec fn kept_places(data: Seq<Seq<FSRSReview>>) -> spec_fn(usize) -> bool {
    |place: usize| kept(data, group(data[place as int]))
}

/// The items that are kept, in the order given.
pub open spec fn picked(data: Seq<Seq<FSRSReview>>, order: Seq<usize>) -> Seq<Seq<FSRSReview>> {
    order.filter(kept_places(data)).map_values(|place: usize| data[place as int])
}

/// Whether an item stays in a training set from which the outliers of `data` are taken.
pub open spec fn stays(data: Seq<Seq<FSRSReview>>, item: Seq<FSRSReview>) -> bool {
    crate::review::long_term_reviews(item).len() == 0 || !removed(data, group(item))
}

/// Whether the first ratings that outliers are looked up by are ratings: those of the
/// groups that are removed, and those of the items in which a group is looked for.
pub open spec fn rated(data: Seq<Seq<FSRSReview>>, trainset: Seq<Seq<FSRSReview>>) -> bool {
    &&& forall|i: int| 0 <= i < data.len() && removed(data, group(#[trigger] data[i])) ==> data[i][0].rating <= 4
    &&& forall|i: int|
        0 <= i < trainset.len() && crate::review::long_term_reviews(#[trigger] trainset[i]).len() > 0
            ==> trainset[i][0].rating <= 4
}

/// A group as two numbers: the rating, and the pattern of the days.
#[derive(Clone, Copy, Debug)]
struct Code {
    rating: u32,
    days: Single,
}

/// Whether two codes are the same: rating and pattern.
fn same_code(a: Code, b: Code) -> (r: bool)
    ensures
        r == (a == b),
{
    a.rating == b.rating && a.days.bits == b.days.bits
}

spec fn stands_for(code: Code, g: (int, int)) -> bool {
    &&& code.rating == g.0
    &&& code.days.finite()
    &&& !code.days.negative()
    &&& code.days.value() == g.1 * pow2(149)
}

spec fn coded(data: Seq<Seq<FSRSReview>>, codes: Seq<Code>) -> bool {
    &&& codes.len() == data.len()
    &&& forall|i: int| 0 <= i < data.len() ==> stands_for(#[trigger] codes[i], group(data[i]))
}

proof fn lemma_codes(a: Code, g: (int, int), b: Code, h: (int, int))
    requires
        stands_for(a, g),
        stands_for(b, h),
    ensures
        a == b <==> g == h,
        a.days.bits < b.days.bits <==> g.1 < h.1,
        a.days.bits == b.days.bits <==> g.1 == h.1,
{
    let unit = pow2(149) as int;
    lemma_pow2_pos(149);
    a.days.lemma_rank(b.days);
    assert(g.1 < h.1 ==> g.1 * unit < h.1 * unit) by (nonlinear_arith)
        requires
            unit > 0,
    ;
    assert(h.1 < g.1 ==> h.1 * unit < g.1 * unit) by (nonlinear_arith)
        requires
            unit > 0,
    ;
}

/// The patterns of 100 and of 365.
proof fn lemma_longest_intervals()
    ensures
        (Single { bits: 0x42c8_0000 }).value() == 100 * pow2(149),
        (Single { bits: 0x43b6_8000 }).value() == 365 * pow2(149),
{
    lemma2_to64();
    lemma_pow2_adds(17, 132);
    lemma_pow2_adds(15, 134);
    assert(0x42c8_0000int / 0x80_0000 == 133 && 0x42c8_0000int % 0x80_0000 == 0x48_0000);
    assert(0x43b6_8000int / 0x80_0000 == 135 && 0x43b6_8000int % 0x80_0000 == 0x36_8000);
    assert((Single { bits: 0x42c8_0000 }).value() == 0xc8_0000 * pow2(132));
    assert((Single { bits: 0x43b6_8000 }).value() == 0xb6_8000 * pow2(134));
}

fn code_of(item: &FSRSItem) -> (r: Code)
    requires
        crate::review::long_term_reviews(item@).len() > 0,
    ensures
        stands_for(r, group(item@)),
{
    proof {
        if item@.len() == 0 {
            assert(item@ =~= item@.take(0));
            crate::picking::lemma_filter_none(
                item@,
                |review: FSRSReview| crate::review::long_term(review),
            );
        }
    }
    Code {
        rating: item.reviews[0].rating,
        days: bucket_long_term_delta_t(item.first_long_term_review().delta_t),
    }
}

fn codes_of(items: &Vec<FSRSItem>) -> (r: Vec<Code>)
    requires
        forall|i: int|
            0 <= i < items@.len() ==> crate::review::long_term_reviews(#[trigger] items@[i]@).len() > 0,
    ensures
        coded(crate::review::views(items@), r@),
{
    let mut r: Vec<Code> = Vec::with_capacity(items.len());
    let mut i: usize = 0;
    while i < items.len()
        invariant
            i <= items@.len(),
            r@.len() == i,
            forall|j: int|
                0 <= j < items@.len() ==> crate::review::long_term_reviews(#[trigger] items@[j]@).len() > 0,
            forall|j: int| 0 <= j < i ==> stands_for(#[trigger] r@[j], group(items@[j]@)),
        decreases items@.len() - i,
    {
        r.push(code_of(&items[i]));
        i += 1;
    }
    r
}

/// How many items are in the group of each item.
fn group_sizes(codes: &Vec<Code>, Ghost(data): Ghost<Seq<Seq<FSRSReview>>>) -> (r: Vec<usize>)
    requires
        coded(data, codes@),
    ensures
        r@.len() == data.len(),
        forall|i: int| 0 <= i < data.len() ==> #[trigger] r@[i] == size(data, group(data[i])),
{
    let n: usize = codes.len();
    let mut keys: Vec<Key> = Vec::with_capacity(n);
    let mut sizes: Vec<usize> = Vec::with_capacity(n);
    let mut i: usize = 0;
    while i < n
        invariant
            i <= n,
            n == codes@.len(),
            keys@.len() == i,
            sizes@.len() == i,
            forall|j: int|
                0 <= j < i ==> #[trigger] keys@[j] == (codes@[j].rating as u64, codes@[j].days.bits as u64, 0u64),
        decreases n - i,
    {
        keys.push((codes[i].rating as u64, codes[i].days.bits as u64, 0));
        sizes.push(0);
        i += 1;
    }
    let order = stable_order(&keys);
    let mut a: usize = 0;
    while a < n
        invariant
            a <= n,
            n == codes@.len(),
            coded(data, codes@),
            keys@.len() == n,
            sizes@.len() == n,
            forall|j: int|
                0 <= j < n ==> #[trigger] keys@[j] == (codes@[j].rating as u64, codes@[j].days.bits as u64, 0u64),
            crate::order::stable(keys@, order@),
            0 < a < n ==> codes@[order@[a - 1] as int] != codes@[order@[a as int] as int],
            forall|j: int|
                0 <= j < a ==> sizes@[#[trigger] order@[j] as int] == size(data, group(data[order@[j] as int])),
        decreases n - a,
    {
        let code = codes[order[a]];
        let mut b: usize = a + 1;
        while b < n && same_code(codes[order[b]], code)
            invariant
                a < b <= n,
                n == codes@.len(),
                crate::order::stable(keys@, order@),
                keys@.len() == n,
                code == codes@[order@[a as int] as int],
                forall|j: int| a <= j < b ==> codes@[#[trigger] order@[j] as int] == code,
            decreases n - b,
        {
            b += 1;
        }
        let ghost g = group(data[order@[a as int] as int]);
        proof {
            let in_group = |i: int| group(data[i]) == g;
            assert forall|j: int| 0 <= j < n implies (in_group(#[trigger] order@[j] as int) <==> a <= j < b) by {
                lemma_codes(
                    codes@[order@[j] as int],
                    group(data[order@[j] as int]),
                    code,
                    g,
                );
                if j < a {
                    assert(crate::order::precedes(keys@, order@[a - 1] as int, order@[a as int] as int));
                    if j < a - 1 {
                        assert(crate::order::precedes(keys@, order@[j] as int, order@[a - 1] as int));
                    }
                }
                if j >= b {
                    assert(crate::order::precedes(keys@, order@[b - 1] as int, order@[b as int] as int));
                    if j > b {
                        assert(crate::order::precedes(keys@, order@[b as int] as int, order@[j] as int));
                    }
                }
            }
            crate::order::lemma_stretch(keys@, order@, a as int, b as int, in_group);
        }
        let mut q: usize = a;
        while q < b
            invariant
                a <= q <= b <= n,
                n == codes@.len(),
                coded(data, codes@),
                keys@.len() == n,
                sizes@.len() == n,
                crate::order::stable(keys@, order@),
                size(data, g) == b - a,
                forall|j: int| a <= j < b ==> codes@[#[trigger] order@[j] as int] == code,
                g == group(data[order@[a as int] as int]),
                forall|j: int|
                    0 <= j < q ==> sizes@[#[trigger] order@[j] as int] == size(data, group(data[order@[j] as int])),
            decreases b - q,
        {
            proof {
                lemma_codes(
                    codes@[order@[q as int] as int],
                    group(data[order@[q as int] as int]),
                    codes@[order@[a as int] as int],
                    g,
                );
                crate::order::law_stable_order_is_a_permutation(keys@, order@);
            }
            sizes.set(order[q], b - a);
            q += 1;
        }
        a = b;
    }
    proof {
        crate::order::law_stable_order_is_a_permutation(keys@, order@);
        assert forall|i: int| 0 <= i < data.len() implies #[trigger] sizes@[i] == size(data, group(data[i])) by {
            assert(crate::order::lists(order@, i));
        }
    }
    sizes
}

/// Whether a group is kept, from what was counted.
fn is_kept(reach_count: usize, total_count: usize, group_size: usize, code: Code, Ghost(data): Ghost<
    Seq<Seq<FSRSReview>>,
>, Ghost(g): Ghost<(int, int)>) -> (r: bool)
    requires
        stands_for(code, g),
        reach_count == reach(data, g),
        total_count == total(data, g.0),
        group_size == size(data, g),
    ensures
        r == kept(data, g),
{
    let part: usize = total_count / 20;
    let wanted: usize = if part < 20 {
        20
    } else {
        part
    };
    let longest = if code.rating != 4 {
        Single::from_bits(0x42c8_0000)
    } else {
        Single::from_bits(0x43b6_8000)
    };
    proof {
        lemma_longest_intervals();
        let longest_days: int = if code.rating != 4 {
            100
        } else {
            365
        };
        lemma_codes(
            code,
            g,
            Code { rating: code.rating, days: longest },
            (code.rating as int, longest_days),
        );
        code.days.lemma_rank(longest);
    }
    reach_count >= wanted && group_size >= 6 && code.days.le(longest)
}

/// The places of the items group by group, and for each whether its group is kept.
fn judged(codes: &Vec<Code>, Ghost(data): Ghost<Seq<Seq<FSRSReview>>>) -> (r: (Vec<usize>, Vec<bool>))
    requires
        coded(data, codes@),
    ensures
        by_group(data, r.0@),
        forall|i: int| 0 <= i < data.len() ==> crate::order::lists(r.0@, i),
        r.1@.len() == data.len(),
        forall|j: int|
            0 <= j < data.len() ==> #[trigger] r.1@[j] == kept(data, group(data[r.0@[j] as int])),
{
    let n: usize = codes.len();
    let sizes = group_sizes(codes, Ghost(data));
    let mut keys: Vec<Key> = Vec::with_capacity(n);
    let mut i: usize = 0;
    while i < n
        invariant
            i <= n,
            n == codes@.len(),
            sizes@.len() == n,
            keys@.len() == i,
            forall|j: int|
                0 <= j < i ==> #[trigger] keys@[j] == (
                    codes@[j].rating as u64,
                    sizes@[j] as u64,
                    codes@[j].days.bits as u64,
                ),
        decreases n - i,
    {
        keys.push((codes[i].rating as u64, sizes[i] as u64, codes[i].days.bits as u64));
        i += 1;
    }
    let order = stable_order(&keys);
    proof {
        crate::order::law_stable_order_is_a_permutation(keys@, order@);
        assert forall|a: int, b: int| 0 <= a < data.len() && 0 <= b < data.len() implies (
        crate::order::precedes(keys@, a, b) <==> before(data, a, b)) by {
            lemma_codes(codes@[a], group(data[a]), codes@[b], group(data[b]));
        }
        assert(by_group(data, order@));
    }
    let mut keep: Vec<bool> = Vec::with_capacity(n);
    let mut p: usize = 0;
    while p < n
        invariant
            p <= n,
            n == codes@.len(),
            coded(data, codes@),
            sizes@.len() == n,
            forall|i: int| 0 <= i < data.len() ==> #[trigger] sizes@[i] == size(data, group(data[i])),
            keys@.len() == n,
            crate::order::stable(keys@, order@),
            by_group(data, order@),
            0 < p < n ==> codes@[order@[p - 1] as int].rating != codes@[order@[p as int] as int].rating,
            keep@.len() == p,
            forall|j: int| 0 <= j < p ==> #[trigger] keep@[j] == kept(data, group(data[order@[j] as int])),
        decreases n - p,
    {
        let rating: u32 = codes[order[p]].rating;
        let mut end: usize = p + 1;
        while end < n && codes[order[end]].rating == rating
            invariant
                p < end <= n,
                n == codes@.len(),
                crate::order::stable(keys@, order@),
                keys@.len() == n,
                rating == codes@[order@[p as int] as int].rating,
                forall|j: int| p <= j < end ==> codes@[#[trigger] order@[j] as int].rating == rating,
            decreases n - end,
        {
            end += 1;
        }
        proof {
            lemma_rating_stretch(data, codes@, order@, p as int, end as int, rating);
            crate::order::lemma_stretch(
                keys@,
                order@,
                p as int,
                end as int,
                of_rating(data, rating as int),
            );
        }
        let mut a: usize = p;
        while a < end
            invariant
                p <= a <= end <= n,
                n == codes@.len(),
                coded(data, codes@),
                sizes@.len() == n,
                forall|i: int| 0 <= i < data.len() ==> #[trigger] sizes@[i] == size(data, group(data[i])),
                keys@.len() == n,
                crate::order::stable(keys@, order@),
                by_group(data, order@),
                forall|j: int|
                    0 <= j < n ==> (codes@[#[trigger] order@[j] as int].rating == rating <==> p <= j < end),
                total(data, rating as int) == end - p,
                p < a < end ==> codes@[order@[a - 1] as int] != codes@[order@[a as int] as int],
                keep@.len() == a,
                forall|j: int| 0 <= j < a ==> #[trigger] keep@[j] == kept(data, group(data[order@[j] as int])),
            decreases end - a,
        {
            let code = codes[order[a]];
            let mut b: usize = a + 1;
            while b < end && same_code(codes[order[b]], code)
                invariant
                    a < b <= end <= n,
                    n == codes@.len(),
                    crate::order::stable(keys@, order@),
                    keys@.len() == n,
                    code == codes@[order@[a as int] as int],
                    forall|j: int| a <= j < b ==> codes@[#[trigger] order@[j] as int] == code,
                decreases end - b,
            {
                b += 1;
            }
            let ghost g = group(data[order@[a as int] as int]);
            proof {
                let up_to = |i: int| group(data[i]).0 == g.0 && not_after(data, group(data[i]), g);
                assert forall|j: int| 0 <= j < n implies (up_to(#[trigger] order@[j] as int) <==> p <= j < b) by {
                    lemma_codes(codes@[order@[j] as int], group(data[order@[j] as int]), code, g);
                    if p <= j < b {
                        if j < a {
                            assert(before(data, order@[j] as int, order@[a as int] as int));
                        }
                    }
                    if b <= j < end {
                        lemma_codes(
                            codes@[order@[b as int] as int],
                            group(data[order@[b as int] as int]),
                            code,
                            g,
                        );
                        assert(before(data, order@[a as int] as int, order@[b as int] as int));
                        if j > b {
                            assert(before(data, order@[b as int] as int, order@[j] as int));
                        }
                    }
                }
                crate::order::lemma_stretch(keys@, order@, p as int, b as int, up_to);
            }
            let keep_group = is_kept(b - p, end - p, sizes[order[a]], code, Ghost(data), Ghost(g));
            let mut q: usize = a;
            while q < b
                invariant
                    a <= q <= b <= n,
                    n == codes@.len(),
                    coded(data, codes@),
                    crate::order::stable(keys@, order@),
                    keys@.len() == n,
                    g == group(data[order@[a as int] as int]),
                    keep_group == kept(data, g),
                    forall|j: int| a <= j < b ==> codes@[#[trigger] order@[j] as int] == code,
                    keep@.len() == q,
                    forall|j: int|
                        0 <= j < q ==> #[trigger] keep@[j] == kept(data, group(data[order@[j] as int])),
                decreases b - q,
            {
                proof {
                    lemma_codes(
                        codes@[order@[q as int] as int],
                        group(data[order@[q as int] as int]),
                        codes@[order@[a as int] as int],
                        g,
                    );
                }
                keep.push(keep_group);
                q += 1;
            }
            a = b;
        }
        p = end;
    }
    (order, keep)
}

/// The items of a rating stand together in the order.
proof fn lemma_rating_stretch(
    data: Seq<Seq<FSRSReview>>,
    codes: Seq<Code>,
    order: Seq<usize>,
    p: int,
    end: int,
    rating: u32,
)
    requires
        coded(data, codes),
        by_group(data, order),
        0 <= p < end <= order.len(),
        0 < p ==> codes[order[p - 1] as int].rating != rating,
        end < order.len() ==> codes[order[end] as int].rating != rating,
        forall|j: int| p <= j < end ==> codes[#[trigger] order[j] as int].rating == rating,
    ensures
        forall|j: int|
            0 <= j < order.len() ==> (codes[#[trigger] order[j] as int].rating == rating <==> p <= j < end),
        forall|j: int|
            0 <= j < order.len() ==> (group(data[#[trigger] order[j] as int]).0 == rating <==> p <= j < end),
{
    assert forall|j: int| 0 <= j < order.len() implies (codes[#[trigger] order[j] as int].rating == rating <==> p
        <= j < end) by {
        if j < p {
            assert(before(data, order[p - 1] as int, order[p] as int));
            if j < p - 1 {
                assert(before(data, order[j] as int, order[p - 1] as int));
            }
        }
        if j >= end {
            assert(before(data, order[end - 1] as int, order[end] as int));
            if j > end {
                assert(before(data, order[end] as int, order[j] as int));
            }
        }
    }
}

/// Takes outliers out of the items for initialisation and out of a training set.
///
/// Each item for initialisation has a long-term review. The items for initialisation that
/// are left come out group by group; the training set keeps its order.
pub fn filter_outlier(dataset_for_initialization: Vec<FSRSItem>, trainset: Vec<FSRSItem>) -> (r: (
    Vec<FSRSItem>,
    Vec<FSRSItem>,
))
    requires
        forall|i: int|
            0 <= i < dataset_for_initialization@.len() ==> crate::review::long_term_reviews(
                #[trigger] dataset_for_initialization@[i]@,
            ).len() > 0,
        rated(
            crate::review::views(dataset_for_initialization@),
            crate::review::views(trainset@),
        ),
    ensures
        exists|order: Seq<usize>| #[trigger]
            by_group(crate::review::views(dataset_for_initialization@), order)
                && crate::review::views(r.0@) == picked(
                crate::review::views(dataset_for_initialization@),
                order,
            ),
        crate::review::views(r.1@) == crate::review::views(trainset@).filter(
            |item: Seq<FSRSReview>|
                stays(crate::review::views(dataset_for_initialization@), item),
        ),
{
    broadcast use vstd::std_specs::hash::group_hash_axioms;

    let ghost data = crate::review::views(dataset_for_initialization@);
    let codes = codes_of(&dataset_for_initialization);
    let (order, keep) = judged(&codes, Ghost(data));
    let mut filtered_items: Vec<FSRSItem> = Vec::new();
    let mut removed_pairs: HashSet<u64> = HashSet::new();
    let mut j: usize = 0;
    proof {
        crate::picking::lemma_filter_none(order@, kept_places(data));
    }
    while j < order.len()
        invariant
            j <= order@.len(),
            data == crate::review::views(dataset_for_initialization@),
            coded(data, codes@),
            by_group(data, order@),
            keep@.len() == data.len(),
            forall|k: int|
                0 <= k < data.len() ==> #[trigger] keep@[k] == kept(data, group(data[order@[k] as int])),
            crate::review::views(filtered_items@) == picked(data, order@.take(j as int)),
            forall|pair: u64|
                removed_pairs@.contains(pair) <==> exists|k: int|
                    0 <= k < j && !keep@[k] && pair == #[trigger] packed(codes@[order@[k] as int]),
        decreases order@.len() - j,
    {
        let place: usize = order[j];
        proof {
            crate::picking::lemma_filter_step(order@, j as int, kept_places(data));
        }
        let ghost before_this = filtered_items@;
        if keep[j] {
            filtered_items.push(dataset_for_initialization[place].clone());
            assert(picked(data, order@.take(j + 1)) =~= picked(data, order@.take(j as int)).push(
                data[place as int],
            ));
            assert(crate::review::views(filtered_items@) =~= crate::review::views(before_this).push(
                data[place as int],
            ));
        } else {
            removed_pairs.insert(pack(codes[place]));
        }
        j += 1;
        proof {
            assert forall|pair: u64|
                removed_pairs@.contains(pair) <==> exists|k: int|
                    0 <= k < j && !keep@[k] && pair == #[trigger] packed(codes@[order@[k] as int]) by {
                let this = packed(codes@[order@[j - 1] as int]);
                if removed_pairs@.contains(pair) && pair == this && !keep@[j - 1] {
                    assert(pair == packed(codes@[order@[j - 1] as int]));
                }
            }
        }
    }
    assert(order@.take(j as int) =~= order@);
    let ghost stays_in = |item: Seq<FSRSReview>| stays(data, item);
    let ghost given = crate::review::views(trainset@);
    let mut left: Vec<FSRSItem> = Vec::new();
    let mut i: usize = 0;
    proof {
        crate::picking::lemma_filter_none(given, stays_in);
    }
    while i < trainset.len()
        invariant
            i <= trainset@.len(),
            coded(data, codes@),
            by_group(data, order@),
            forall|k: int| 0 <= k < data.len() ==> crate::order::lists(order@, k),
            keep@.len() == data.len(),
            forall|k: int|
                0 <= k < data.len() ==> #[trigger] keep@[k] == kept(data, group(data[order@[k] as int])),
            forall|pair: u64|
                removed_pairs@.contains(pair) <==> exists|k: int|
                    0 <= k < data.len() && !keep@[k] && pair == #[trigger] packed(codes@[order@[k] as int]),
            stays_in == (|item: Seq<FSRSReview>| stays(data, item)),
            given == crate::review::views(trainset@),
            crate::review::views(left@) == given.take(i as int).filter(stays_in),
        decreases trainset@.len() - i,
    {
        let item = &trainset[i];
        let item_stays = if item.long_term_review_cnt() == 0 {
            true
        } else {
            let code = code_of(item);
            proof {
                lemma_removed_pair(data, codes@, order@, keep@, code, group(item@));
            }
            !removed_pairs.contains(&pack(code))
        };
        proof {
            crate::picking::lemma_filter_step(given, i as int, stays_in);
        }
        if item_stays {
            left.push(item.clone());
        }
        i += 1;
        assert(crate::review::views(left@) =~= given.take(i as int).filter(stays_in));
    }
    assert(given.take(i as int) =~= given);
    (filtered_items, left)
}

spec fn packed(code: Code) -> u64 {
    (code.rating * 0x1_0000_0000 + code.days.bits) as u64
}

fn pack(code: Code) -> (r: u64)
    ensures
        r == packed(code),
{
    code.rating as u64 * 0x1_0000_0000 + code.days.bits as u64
}

/// A group is an outlier if and only if it was found to be one under the same code.
proof fn lemma_removed_pair(
    data: Seq<Seq<FSRSReview>>,
    codes: Seq<Code>,
    order: Seq<usize>,
    keep: Seq<bool>,
    code: Code,
    g: (int, int),
)
    requires
        coded(data, codes),
        by_group(data, order),
        forall|k: int| 0 <= k < data.len() ==> crate::order::lists(order, k),
        keep.len() == data.len(),
        forall|k: int|
            0 <= k < data.len() ==> #[trigger] keep[k] == kept(data, group(data[order[k] as int])),
        stands_for(code, g),
    ensures
        removed(data, g) <==> exists|k: int|
            0 <= k < data.len() && !keep[k] && packed(code) == #[trigger] packed(codes[order[k] as int]),
{
    let members = Set::new(|i: int| 0 <= i < data.len() && group(data[i]) == g);
    vstd::set_lib::lemma_int_range(0, data.len() as int);
    vstd::set_lib::lemma_len_subset(members, vstd::set_lib::set_int_range(0, data.len() as int));
    assert(size(data, g) == members.len()) by {
        assert(members =~= Set::new(|i: int| 0 <= i < data.len() && (|i: int| group(data[i]) == g)(i)));
    }
    if removed(data, g) {
        assert(exists|i: int| members.contains(i)) by {
            if forall|i: int| !members.contains(i) {
                assert(members =~= Set::empty());
            }
        }
        let i = choose|i: int| members.contains(i);
        assert(crate::order::lists(order, i));
        let k = choose|k: int| 0 <= k < order.len() && #[trigger] order[k] == i;
        lemma_codes(code, g, codes[i], group(data[i]));
        assert(packed(code) == packed(codes[order[k] as int]));
    }
    if exists|k: int|
        0 <= k < data.len() && !keep[k] && packed(code) == #[trigger] packed(codes[order[k] as int]) {
        let k = choose|k: int|
            0 <= k < data.len() && !keep[k] && packed(code) == #[trigger] packed(codes[order[k] as int]);
        let i = order[k] as int;
        assert(codes[i] == code) by {
            assert(packed(code) == code.rating * 0x1_0000_0000 + code.days.bits);
            assert(packed(codes[i]) == codes[i].rating * 0x1_0000_0000 + codes[i].days.bits);
        }
        lemma_codes(code, g, codes[i], group(data[i]));
        assert(members.contains(i));
        assert(members.remove(i).len() < members.len());
    }
}

/// There is one order group by group, so that what `filter_outlier` returns is one list.
pub proof fn law_group_order_is_unique(data: Seq<Seq<FSRSReview>>, a: Seq<usize>, b: Seq<usize>)
    requires
        by_group(data, a),
        by_group(data, b),
    ensures
        a == b,
        picked(data, a) == picked(data, b),
{
    crate::order::lemma_listing_is_unique(
        data.len(),
        |a: int, b: int| before(data, a, b),
        a,
        b,
    );
}

/// An item for initialisation is left if and only if it also stays in the training set.
pub proof fn law_both_sets_lose_the_same_items(data: Seq<Seq<FSRSReview>>, i: int)
    requires
        0 <= i < data.len(),
        crate::review::long_term_reviews(data[i]).len() > 0,
    ensures
        kept(data, group(data[i])) <==> stays(data, data[i]),
{
    let g = group(data[i]);
    let members = Set::new(|j: int| 0 <= j < data.len() && (|j: int| group(data[j]) == g)(j));
    vstd::set_lib::lemma_int_range(0, data.len() as int);
    vstd::set_lib::lemma_len_subset(members, vstd::set_lib::set_int_range(0, data.len() as int));
    assert(members.contains(i));
    assert(members.remove(i).len() < members.len());
    assert(size(data, g) == members.len());
}

/// The items of a rating that are in its smallest groups.
pub open spec fn in_small_groups(data: Seq<Seq<FSRSReview>>, rating: int) -> spec_fn(int) -> bool {
    |i: int| group(data[i]).0 == rating && reach(data, group(data[i])) < limit(data, rating)
}

/// Fewer items of a rating than the limit are outliers for being in its smallest groups:
/// fewer than 20, or fewer than one in twenty.
pub proof fn law_few_items_are_lost_in_small_groups(data: Seq<Seq<FSRSReview>>, rating: int)
    ensures
        crate::order::count(data.len(), in_small_groups(data, rating)) < limit(data, rating),
{
    let p = in_small_groups(data, rating);
    let lost = Set::new(|i: int| 0 <= i < data.len() && p(i));
    let n = data.len();
    vstd::set_lib::lemma_int_range(0, n as int);
    vstd::set_lib::lemma_len_subset(lost, vstd::set_lib::set_int_range(0, n as int));
    if lost.len() > 0 {
        let some = lost.choose();
        assert(lost.contains(some));
        lemma_farthest(data, lost, n as int);
        let last = choose|i: int|
            lost.contains(i) && forall|j: int| #[trigger]
                lost.contains(j) ==> reach(data, group(data[j])) <= reach(data, group(data[i]));
        let g = group(data[last]);
        let up_to = |i: int| group(data[i]).0 == g.0 && not_after(data, group(data[i]), g);
        let reached = Set::new(|i: int| 0 <= i < data.len() && up_to(i));
        assert(reach(data, g) == reached.len());
        vstd::set_lib::lemma_len_subset(reached, vstd::set_lib::set_int_range(0, n as int));
        assert forall|j: int| lost.contains(j) implies reached.contains(j) by {
            if !not_after(data, group(data[j]), g) {
                lemma_reach_grows(data, last, j);
            }
        }
        vstd::set_lib::lemma_len_subset(lost, reached);
        assert(p(last));
    }
}

/// A group that comes later reaches farther.
proof fn lemma_reach_grows(data: Seq<Seq<FSRSReview>>, i: int, j: int)
    requires
        0 <= i < data.len(),
        0 <= j < data.len(),
        group(data[i]).0 == group(data[j]).0,
        !not_after(data, group(data[j]), group(data[i])),
    ensures
        reach(data, group(data[i])) < reach(data, group(data[j])),
{
    let g = group(data[i]);
    let h = group(data[j]);
    let n = data.len();
    let up_to_g = |k: int| group(data[k]).0 == g.0 && not_after(data, group(data[k]), g);
    let up_to_h = |k: int| group(data[k]).0 == h.0 && not_after(data, group(data[k]), h);
    let a = Set::new(|k: int| 0 <= k < n && up_to_g(k));
    let b = Set::new(|k: int| 0 <= k < n && up_to_h(k));
    assert(reach(data, g) == a.len());
    assert(reach(data, h) == b.len());
    vstd::set_lib::lemma_int_range(0, n as int);
    vstd::set_lib::lemma_len_subset(b, vstd::set_lib::set_int_range(0, n as int));
    assert(b.contains(j));
    assert(!a.contains(j));
    assert(a.subset_of(b.remove(j)));
    vstd::set_lib::lemma_len_subset(a, b.remove(j));
}

/// Of some places, one is in a group that reaches farthest.
proof fn lemma_farthest(data: Seq<Seq<FSRSReview>>, places: Set<int>, n: int)
    requires
        exists|i: int| places.contains(i),
        forall|i: int| #[trigger] places.contains(i) ==> 0 <= i < n,
    ensures
        exists|i: int|
            places.contains(i) && forall|j: int| #[trigger]
                places.contains(j) ==> reach(data, group(data[j])) <= reach(data, group(data[i])),
    decreases n,
{
    let some = choose|i: int| places.contains(i);
    assert(places.contains(some));
    let rest = places.remove(n - 1);
    if exists|i: int| rest.contains(i) {
        lemma_farthest(data, rest, n - 1);
        let i = choose|i: int|
            rest.contains(i) && forall|j: int| #[trigger]
                rest.contains(j) ==> reach(data, group(data[j])) <= reach(data, group(data[i]));
        assert(places.contains(i));
        if places.contains(n - 1) && reach(data, group(data[n - 1])) > reach(data, group(data[i])) {
            assert forall|j: int| #[trigger] places.contains(j) implies reach(data, group(data[j])) <= reach(
                data,
                group(data[n - 1]),
            ) by {
                if j != n - 1 {
                    assert(rest.contains(j));
                }
            }
        } else {
            assert forall|j: int| #[trigger] places.contains(j) implies reach(data, group(data[j])) <= reach(
                data,
                group(data[i]),
            ) by {
                if j != n - 1 {
                    assert(rest.contains(j));
                }
            }
        }
    } else {
        assert(!rest.contains(some));
        assert(some == n - 1);
        assert forall|j: int| #[trigger] places.contains(j) implies reach(data, group(data[j])) <= reach(
            data,
            group(data[some]),
        ) by {
            assert(!rest.contains(j));
        }
    }
}

/// The whole days before the first long-term review of an item.
pub open spec fn first_days(item: Seq<FSRSReview>) -> int {
    crate::review::whole_days(crate::review::long_term_reviews(item).first().delta_t)
}

proof fn lemma_sizes(data: Seq<Seq<FSRSReview>>)
    ensures
        forall|g: (int, int)| #[trigger]
            size(data, g) == data.filter(
                |item: Seq<FSRSReview>| item[0].rating == g.0 && first_days(item) == g.1,
            ).len(),
        forall|rating: int| #[trigger]
            total(data, rating) == data.filter(
                |item: Seq<FSRSReview>| item[0].rating == rating,
            ).len(),
        forall|g: (int, int)| #[trigger]
            reach(data, g) == data.filter(
                |item: Seq<FSRSReview>|
                    item[0].rating == g.0 && not_after(data, (g.0, first_days(item)), g),
            ).len(),
{
    assert forall|g: (int, int)| #[trigger]
        size(data, g) == data.filter(
            |item: Seq<FSRSReview>| item[0].rating == g.0 && first_days(item) == g.1,
        ).len() by {
        crate::picking::lemma_filter_counts(
            data,
            |item: Seq<FSRSReview>| item[0].rating == g.0 && first_days(item) == g.1,
            |i: int| group(data[i]) == g,
        );
    }
    assert forall|rating: int| #[trigger]
        total(data, rating) == data.filter(
            |item: Seq<FSRSReview>| item[0].rating == rating,
        ).len() by {
        crate::picking::lemma_filter_counts(
            data,
            |item: Seq<FSRSReview>| item[0].rating == rating,
            of_rating(data, rating),
        );
    }
    assert forall|g: (int, int)| #[trigger]
        reach(data, g) == data.filter(
            |item: Seq<FSRSReview>|
                item[0].rating == g.0 && not_after(data, (g.0, first_days(item)), g),
        ).len() by {
        crate::picking::lemma_filter_counts(
            data,
            |item: Seq<FSRSReview>|
                item[0].rating == g.0 && not_after(data, (g.0, first_days(item)), g),
            |i: int| group(data[i]).0 == g.0 && not_after(data, group(data[i]), g),
        );
    }
}

/// The limit of a rating is the larger of 20 and a twentieth of the number of its own items,
/// whatever other items there are.
pub proof fn law_limit_goes_by_the_items_of_the_rating(data: Seq<Seq<FSRSReview>>, rating: int)
    ensures
        ({
            let own = data.filter(|item: Seq<FSRSReview>| item[0].rating == rating).len() as int;
            &&& limit(data, rating) >= 20
            &&& limit(data, rating) >= own / 20
            &&& limit(data, rating) == 20 || limit(data, rating) == own / 20
        }),
{
    lemma_sizes(data);
}

/// Whether a group is kept depends on the items with its own first rating alone: taking all
/// other items out of the data changes neither the limit of the rating, nor which of its
/// groups are kept or removed.
pub proof fn law_ratings_are_judged_by_themselves(data: Seq<Seq<FSRSReview>>, g: (int, int))
    ensures
        ({
            let own = data.filter(|item: Seq<FSRSReview>| item[0].rating == g.0);
            &&& limit(own, g.0) == limit(data, g.0)
            &&& size(own, g) == size(data, g)
            &&& reach(own, g) == reach(data, g)
            &&& kept(own, g) == kept(data, g)
            &&& removed(own, g) == removed(data, g)
        }),
{
    let mine = |item: Seq<FSRSReview>| item[0].rating == g.0;
    let own = data.filter(mine);
    lemma_sizes(data);
    lemma_sizes(own);
    assert forall|days: int| size(own, (g.0, days)) == #[trigger] size(data, (g.0, days)) by {
        let h = (g.0, days);
        let narrow = |item: Seq<FSRSReview>| item[0].rating == h.0 && first_days(item) == h.1;
        crate::picking::lemma_filter_again(data, mine, narrow);
        assert(size(data, h) == data.filter(narrow).len());
        assert(size(own, h) == own.filter(narrow).len());
    }
    crate::picking::lemma_filter_again(data, mine, mine);
    assert(total(own, g.0) == own.filter(mine).len());
    let up_to = |item: Seq<FSRSReview>|
        item[0].rating == g.0 && not_after(data, (g.0, first_days(item)), g);
    let up_to_own = |item: Seq<FSRSReview>|
        item[0].rating == g.0 && not_after(own, (g.0, first_days(item)), g);
    crate::picking::lemma_filter_again(data, mine, up_to);
    assert forall|i: int| 0 <= i < own.len() implies up_to(#[trigger] own[i]) == up_to_own(own[i]) by {
        assert(size(own, (g.0, first_days(own[i]))) == size(data, (g.0, first_days(own[i]))));
        assert(size(own, (g.0, g.1)) == size(data, (g.0, g.1)));
    }
    crate::picking::lemma_filters_agree(own, up_to, up_to_own);
    assert(reach(data, g) == data.filter(up_to).len());
    assert(reach(own, g) == own.filter(up_to_own).len());
    assert(size(own, (g.0, g.1)) == size(data, (g.0, g.1)));
}

/// What makes a group one that is kept, among the items of its rating alone: it holds six
/// items or more; its interval is at most 100 days, or 365 where the rating is 4; and
/// together with the groups before it, which are those with fewer items, and those with as
/// many and a shorter interval, it holds 20 items or more, and a twentieth or more of the
/// items of the rating.
pub proof fn law_what_makes_a_group_kept(data: Seq<Seq<FSRSReview>>, rating: int, days: int)
    ensures
        ({
            let own = data.filter(|item: Seq<FSRSReview>| item[0].rating == rating);
            let members = |d: int|
                own.filter(|item: Seq<FSRSReview>| first_days(item) == d).len() as int;
            let up_to = own.filter(
                |item: Seq<FSRSReview>|
                    members(first_days(item)) < members(days) || (members(first_days(item))
                        == members(days) && first_days(item) <= days),
            ).len() as int;
            kept(data, (rating, days)) <==> {
                &&& members(days) >= 6
                &&& (rating == 4 ==> days <= 365)
                &&& (rating != 4 ==> days <= 100)
                &&& up_to >= 20
                &&& up_to >= own.len() as int / 20
            }
        }),
{
    let g = (rating, days);
    let mine = |item: Seq<FSRSReview>| item[0].rating == rating;
    let own = data.filter(mine);
    let members = |d: int| own.filter(|item: Seq<FSRSReview>| first_days(item) == d).len() as int;
    let early = |item: Seq<FSRSReview>|
        members(first_days(item)) < members(days) || (members(first_days(item)) == members(days)
            && first_days(item) <= days);
    lemma_sizes(data);
    crate::picking::lemma_filter_picks(data, mine);
    assert forall|d: int| size(data, (rating, d)) == #[trigger] members(d) by {
        let h = (rating, d);
        let narrow = |item: Seq<FSRSReview>| item[0].rating == h.0 && first_days(item) == h.1;
        let of_days = |item: Seq<FSRSReview>| first_days(item) == d;
        crate::picking::lemma_filter_again(data, mine, narrow);
        assert forall|i: int| 0 <= i < own.len() implies narrow(#[trigger] own[i]) == of_days(own[i]) by {
            assert(own.contains(own[i]));
        }
        crate::picking::lemma_filters_agree(own, narrow, of_days);
        assert(size(data, h) == data.filter(narrow).len());
    }
    let narrow = |item: Seq<FSRSReview>|
        item[0].rating == g.0 && not_after(data, (g.0, first_days(item)), g);
    crate::picking::lemma_filter_again(data, mine, narrow);
    assert forall|i: int| 0 <= i < own.len() implies narrow(#[trigger] own[i]) == early(own[i]) by {
        assert(own.contains(own[i]));
        assert(size(data, (rating, first_days(own[i]))) == members(first_days(own[i])));
        assert(size(data, (rating, days)) == members(days));
    }
    crate::picking::lemma_filters_agree(own, narrow, early);
    assert(reach(data, g) == data.filter(narrow).len());
    assert(size(data, (rating, days)) == members(days));
    assert(total(data, rating) == own.len());
}

/// An item stays in a training set if and only if it has no long-term review, or no item for
/// initialisation is in its group, or its group is kept.
pub proof fn law_what_stays(data: Seq<Seq<FSRSReview>>, item: Seq<FSRSReview>)
    ensures
        stays(data, item) <==> {
            ||| forall|i: int|
                0 <= i < item.len() ==> (#[trigger] item[i]).delta_t.nan() || item[i].delta_t.value()
                    < pow2(149)
            ||| forall|i: int|
                0 <= i < data.len() ==> (#[trigger] data[i])[0].rating != item[0].rating
                    || first_days(data[i]) != first_days(item)
            ||| kept(data, (item[0].rating as int, first_days(item)))
        },
{
    let g = group(item);
    let wanted = |review: FSRSReview| crate::review::long_term(review);
    let late = |i: int| !item[i].delta_t.nan() && item[i].delta_t.value() >= pow2(149);
    crate::single::lemma_one();
    crate::picking::lemma_filter_counts(item, wanted, late);
    crate::order::lemma_count_some(item.len(), late);
    if exists|i: int| 0 <= i < item.len() && #[trigger] late(i) {
        let i = choose|i: int| 0 <= i < item.len() && #[trigger] late(i);
        assert(!item[i].delta_t.nan() && item[i].delta_t.value() >= pow2(149));
    } else {
        assert forall|i: int| 0 <= i < item.len() implies (#[trigger] item[i]).delta_t.nan()
            || item[i].delta_t.value() < pow2(149) by {
            assert(!late(i));
        }
    }
    let here = |i: int| group(data[i]) == g;
    crate::order::lemma_count_some(data.len(), here);
    if exists|i: int| 0 <= i < data.len() && #[trigger] here(i) {
        let i = choose|i: int| 0 <= i < data.len() && #[trigger] here(i);
        assert(data[i][0].rating == item[0].rating && first_days(data[i]) == first_days(item));
    } else {
        assert forall|i: int| 0 <= i < data.len() implies (#[trigger] data[i])[0].rating
            != item[0].rating || first_days(data[i]) != first_days(item) by {
            assert(!here(i));
        }
    }
}

/// The items for initialisation that are left come out by rating; within a rating by the
/// number of items in their group, the fewest first; then by days; and within a group as
/// they stood.
pub proof fn law_groups_come_in_order(data: Seq<Seq<FSRSReview>>, order: Seq<usize>, i: int, j: int)
    requires
        by_group(data, order),
        0 <= i < j < order.len(),
    ensures
        ({
            let a = data[order[i] as int];
            let b = data[order[j] as int];
            let members = |x: Seq<FSRSReview>|
                data.filter(
                    |item: Seq<FSRSReview>|
                        item[0].rating == x[0].rating && first_days(item) == first_days(x),
                ).len();
            &&& a[0].rating <= b[0].rating
            &&& a[0].rating == b[0].rating ==> members(a) <= members(b)
            &&& a[0].rating == b[0].rating && members(a) == members(b) ==> first_days(a)
                <= first_days(b)
            &&& a[0].rating == b[0].rating && members(a) == members(b) && first_days(a)
                == first_days(b) ==> order[i] < order[j]
        }),
{
    lemma_sizes(data);
    let a = data[order[i] as int];
    let b = data[order[j] as int];
    let members = |x: Seq<FSRSReview>|
        data.filter(
            |item: Seq<FSRSReview>|
                item[0].rating == x[0].rating && first_days(item) == first_days(x),
        ).len();
    assert(before(data, order[i] as int, order[j] as int));
    assert forall|x: Seq<FSRSReview>| size(data, group(x)) == #[trigger] members(x) by {
        let g = group(x);
        let p = |item: Seq<FSRSReview>| item[0].rating == g.0 && first_days(item) == g.1;
        let q = |item: Seq<FSRSReview>|
            item[0].rating == x[0].rating && first_days(item) == first_days(x);
        crate::picking::lemma_filters_agree(data, p, q);
        assert(size(data, g) == data.filter(p).len());
    }
    assert(size(data, group(a)) == members(a) && size(data, group(b)) == members(b));
}

/// Of the items for initialisation, exactly those of the groups that are kept are left.
pub proof fn law_what_is_left_for_initialisation(
    data: Seq<Seq<FSRSReview>>,
    order: Seq<usize>,
    i: int,
)
    requires
        by_group(data, order),
        0 <= i < data.len(),
    ensures
        picked(data, order).contains(data[i]) <==> kept(data, (data[i][0].rating as int, first_days(data[i]))),
        picked(data, order).len() <= data.len(),
{
    let wanted = kept_places(data);
    let places = order.filter(wanted);
    crate::picking::lemma_filter_picks(order, wanted);
    let left = picked(data, order);
    if left.contains(data[i]) {
        let k = choose|k: int| 0 <= k < left.len() && left[k] == data[i];
        assert(places.contains(places[k]));
        assert(wanted(places[k]));
        assert(data[places[k] as int] == data[i]);
    }
    if kept(data, group(data[i])) {
        crate::order::lemma_listing_is_a_permutation(
            data.len(),
            |a: int, b: int| before(data, a, b),
            order,
        );
        assert(crate::order::lists(order, i));
        let k = choose|k: int| 0 <= k < order.len() && #[trigger] order[k] == i;
        assert(order.contains(order[k]));
        assert(wanted(order[k]));
        assert(places.contains(order[k]));
        let m = choose|m: int| 0 <= m < places.len() && places[m] == order[k];
        assert(left[m] == data[i]);
    }
}

} // verus!
