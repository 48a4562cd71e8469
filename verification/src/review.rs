//! Reviews, and the items that they make up.

use crate::single::Single;
use vstd::arithmetic::power2::*;
use vstd::prelude::*;
use vstd::std_specs::cmp::PartialEqSpecImpl;

verus! {

/// One review of a card. `==` in code compares intervals as numbers.
#[derive(Clone, Copy, Debug)]
pub struct FSRSReview {
    /// 1 to 4.
    pub rating: u32,
    /// The number of days that passed, with a fraction. It must be 0 for the first
    /// review of an item.
    pub delta_t: Single,
}

/// The reviews of a card, in the order in which they were done. An item stands for its
/// last review; the ones before it are that review's history. `==` in code compares the
/// reviews one by one.
#[derive(Debug)]
pub struct FSRSItem {
    /// The reviews.
    pub reviews: Vec<FSRSReview>,
}

impl View for FSRSItem {
    type V = Seq<FSRSReview>;

    open spec fn view(&self) -> Seq<FSRSReview> {
        self.reviews@
    }
}

impl FSRSReview {
    /// Whether two reviews have the same rating, and intervals that are the same number.
    pub open spec fn same(self, other: FSRSReview) -> bool {
        self.rating == other.rating && self.delta_t.same(other.delta_t)
    }
}

impl PartialEq for FSRSReview {
    fn eq(&self, other: &FSRSReview) -> (r: bool) {
        self.rating == other.rating && self.delta_t == other.delta_t
    }
}

impl PartialEqSpecImpl for FSRSReview {
    open spec fn obeys_eq_spec() -> bool {
        true
    }

    open spec fn eq_spec(&self, other: &FSRSReview) -> bool {
        self.same(*other)
    }
}

/// Whether two lists of reviews have the same reviews in the same places.
pub open spec fn same_reviews(a: Seq<FSRSReview>, b: Seq<FSRSReview>) -> bool {
    a.len() == b.len() && forall|i: int| 0 <= i < a.len() ==> (#[trigger] a[i]).same(b[i])
}

impl PartialEq for FSRSItem {
    fn eq(&self, other: &FSRSItem) -> (r: bool) {
        if self.reviews.len() != other.reviews.len() {
            return false;
        }
        let mut i: usize = 0;
        while i < self.reviews.len()
            invariant
                i <= self.reviews@.len() == other.reviews@.len(),
                forall|j: int| 0 <= j < i ==> (#[trigger] self.reviews@[j]).same(other.reviews@[j]),
            decreases self.reviews@.len() - i,
        {
            if self.reviews[i] != other.reviews[i] {
                assert(!self.reviews@[i as int].same(other.reviews@[i as int]));
                return false;
            }
            i += 1;
        }
        true
    }
}

impl PartialEqSpecImpl for FSRSItem {
    open spec fn obeys_eq_spec() -> bool {
        true
    }

    open spec fn eq_spec(&self, other: &FSRSItem) -> bool {
        same_reviews(self@, other@)
    }
}

/// The reviews of each item.
pub open spec fn views(items: Seq<FSRSItem>) -> Seq<Seq<FSRSReview>> {
    Seq::new(items.len(), |i: int| items[i]@)
}

/// Whether a day or more passed before the review.
pub open spec fn long_term(review: FSRSReview) -> bool {
    Single::one().at_most(review.delta_t)
}

/// The reviews before which a day or more passed.
pub open spec fn long_term_reviews(reviews: Seq<FSRSReview>) -> Seq<FSRSReview> {
    reviews.filter(|review: FSRSReview| long_term(review))
}

/// The lapses among reviews: forgotten after a day or more.
pub open spec fn lapses(reviews: Seq<FSRSReview>) -> Seq<FSRSReview> {
    reviews.filter(|review: FSRSReview| review.rating == 1 && long_term(review))
}

/// The whole days in `delta_t`: at least 1, and 1 where it is not finite.
pub open spec fn whole_days(delta_t: Single) -> int {
    if delta_t.finite() && Single::one().at_most(delta_t) {
        delta_t.value() / pow2(149) as int
    } else {
        1
    }
}

impl Default for FSRSItem {
    fn default() -> (r: Self)
        ensures
            r@ == Seq::<FSRSReview>::empty(),
    {
        FSRSItem { reviews: Vec::new() }
    }
}

impl Clone for FSRSItem {
    fn clone(&self) -> (r: Self)
        ensures
            r@ == self@,
    {
        let mut reviews: Vec<FSRSReview> = Vec::with_capacity(self.reviews.len());
        let mut i: usize = 0;
        while i < self.reviews.len()
            invariant
                i <= self.reviews@.len(),
                reviews@ == self.reviews@.take(i as int),
            decreases self.reviews@.len() - i,
        {
            reviews.push(self.reviews[i]);
            i += 1;
            assert(self.reviews@.take(i as int) =~= self.reviews@.take(i - 1).push(
                self.reviews@[i - 1],
            ));
        }
        assert(self.reviews@.take(i as int) =~= self.reviews@);
        FSRSItem { reviews }
    }
}

impl FSRSReview {
    /// Whether a day or more passed before the review.
    pub fn is_long_term(&self) -> (r: bool)
        ensures
            r == long_term(*self),
            r <==> !self.delta_t.nan() && self.delta_t.value() >= pow2(149),
    {
        proof {
            crate::single::lemma_one();
        }
        Single::one().le(self.delta_t)
    }
}

impl FSRSItem {
    /// The reviews before the current one.
    pub fn history(&self) -> (r: &[FSRSReview])
        requires
            self@.len() > 0,
        ensures
            r@ == self@.drop_last(),
    {
        vstd::slice::slice_subrange(&self.reviews, 0, self.reviews.len() - 1)
    }

    /// The review that the item stands for.
    pub fn current(&self) -> (r: &FSRSReview)
        requires
            self@.len() > 0,
        ensures
            *r == self@.last(),
    {
        &self.reviews[self.reviews.len() - 1]
    }

    /// How many reviews were done after a day or more.
    pub fn long_term_review_cnt(&self) -> (r: usize)
        ensures
            r == long_term_reviews(self@).len(),
            r == crate::order::count(
                self@.len(),
                |i: int| !self@[i].delta_t.nan() && self@[i].delta_t.value() >= pow2(149),
            ),
    {
        let ghost wanted = |review: FSRSReview| long_term(review);
        let mut count: usize = 0;
        let mut i: usize = 0;
        while i < self.reviews.len()
            invariant
                i <= self@.len(),
                wanted == (|review: FSRSReview| long_term(review)),
                count == self@.take(i as int).filter(wanted).len(),
                count <= i,
            decreases self@.len() - i,
        {
            proof {
                crate::picking::lemma_filter_step(self@, i as int, wanted);
            }
            if self.reviews[i].is_long_term() {
                count += 1;
            }
            i += 1;
        }
        assert(self@.take(i as int) =~= self@);
        proof {
            let late = |i: int| !self@[i].delta_t.nan() && self@[i].delta_t.value() >= pow2(149);
            assert forall|j: int| 0 <= j < self@.len() implies late(j) == wanted(self@[j]) by {
                crate::single::lemma_one();
            }
            crate::picking::lemma_filter_counts(self@, wanted, late);
        }
        count
    }

    /// The first review that was done after a day or more.
    pub fn first_long_term_review(&self) -> (r: FSRSReview)
        requires
            long_term_reviews(self@).len() > 0,
        ensures
            r == long_term_reviews(self@).first(),
            exists|i: int|
                #![trigger self@[i]]
                0 <= i < self@.len() && r == self@[i] && !r.delta_t.nan() && r.delta_t.value()
                    >= pow2(149) && forall|j: int|
                    0 <= j < i ==> (#[trigger] self@[j]).delta_t.nan() || self@[j].delta_t.value()
                        < pow2(149),
    {
        let ghost wanted = |review: FSRSReview| long_term(review);
        let mut i: usize = 0;
        proof {
            assert(self@.take(0) =~= Seq::empty());
            reveal(Seq::filter);
        }
        while !self.reviews[i].is_long_term()
            invariant
                wanted == (|review: FSRSReview| long_term(review)),
                self@.take(i as int).filter(wanted).len() == 0,
                i < self.reviews.len(),
                self@.filter(wanted).len() > 0,
                forall|j: int|
                    0 <= j < i ==> (#[trigger] self@[j]).delta_t.nan() || self@[j].delta_t.value()
                        < pow2(149),
            decreases self@.len() - i,
        {
            proof {
                crate::single::lemma_one();
                crate::picking::lemma_filter_step(self@, i as int, wanted);
                if i + 1 == self@.len() {
                    assert(self@.take(i + 1) =~= self@);
                }
            }
            i += 1;
        }
        proof {
            crate::picking::lemma_filter_step(self@, i as int, wanted);
            crate::picking::lemma_filter_prefix(self@, i + 1, wanted);
            crate::single::lemma_one();
            assert(long_term(self@[i as int]));
        }
        self.reviews[i]
    }

    /// How many of the reviews in the history were lapses after a day or more.
    pub fn lapse_cnt(&self) -> (r: usize)
        requires
            self@.len() > 0,
        ensures
            r == lapses(self@.drop_last()).len(),
            r == crate::order::count(
                (self@.len() - 1) as nat,
                |i: int|
                    self@[i].rating == 1 && !self@[i].delta_t.nan() && self@[i].delta_t.value()
                        >= pow2(149),
            ),
    {
        let ghost wanted = |review: FSRSReview| review.rating == 1 && long_term(review);
        let ghost past = self@.drop_last();
        let mut count: usize = 0;
        let mut i: usize = 0;
        while i < self.reviews.len() - 1
            invariant
                i < self@.len(),
                past == self@.drop_last(),
                wanted == (|review: FSRSReview| review.rating == 1 && long_term(review)),
                count == past.take(i as int).filter(wanted).len(),
                count <= i,
            decreases self@.len() - i,
        {
            proof {
                crate::picking::lemma_filter_step(past, i as int, wanted);
            }
            if self.reviews[i].rating == 1 && self.reviews[i].is_long_term() {
                count += 1;
            }
            i += 1;
        }
        assert(past.take(i as int) =~= past);
        proof {
            let lapsed = |i: int|
                self@[i].rating == 1 && !self@[i].delta_t.nan() && self@[i].delta_t.value() >= pow2(
                    149,
                );
            assert forall|j: int| 0 <= j < past.len() implies lapsed(j) == wanted(past[j]) by {
                crate::single::lemma_one();
            }
            crate::picking::lemma_filter_counts(past, wanted, lapsed);
        }
        count
    }

    /// The cell of the calibration table that the item falls into, from the bins of its
    /// interval, of its number of long-term reviews, and of its number of lapses. An item
    /// without a lapse is in lapse bin 0, whatever the last bin is.
    pub fn r_matrix_index(&self, delta_t_bin: u32, length_bin: u32, lapse_bin: u32) -> (r: (
        u32,
        u32,
        u32,
    ))
        requires
            self@.len() > 0,
        ensures
            r == (
                delta_t_bin,
                length_bin,
                if lapses(self@.drop_last()).len() == 0 {
                    0
                } else {
                    lapse_bin
                },
            ),
            (exists|i: int|
                0 <= i < self@.len() - 1 && (#[trigger] self@[i]).rating == 1
                    && !self@[i].delta_t.nan() && self@[i].delta_t.value() >= pow2(149)) ==> r.2
                == lapse_bin,
            (forall|i: int|
                0 <= i < self@.len() - 1 ==> (#[trigger] self@[i]).rating != 1
                    || self@[i].delta_t.nan() || self@[i].delta_t.value() < pow2(149)) ==> r.2 == 0,
    {
        proof {
            let lapsed = |i: int|
                self@[i].rating == 1 && !self@[i].delta_t.nan() && self@[i].delta_t.value() >= pow2(
                    149,
                );
            crate::order::lemma_count_some((self@.len() - 1) as nat, lapsed);
            assert forall|i: int| 0 <= i < self@.len() - 1 implies lapsed(i) == ((#[trigger] self@[i]).rating
                == 1 && !self@[i].delta_t.nan() && self@[i].delta_t.value() >= pow2(149)) by {}
        }
        if self.lapse_cnt() == 0 {
            (delta_t_bin, length_bin, 0)
        } else {
            (delta_t_bin, length_bin, lapse_bin)
        }
    }
}

/// The interval in whole days: rounded down, at least 1, and 1 where it is not finite.
pub fn bucket_long_term_delta_t(delta_t: Single) -> (r: Single)
    ensures
        r.finite(),
        !r.negative(),
        r.value() == whole_days(delta_t) * pow2(149),
        r.value() as int % pow2(149) as int == 0,
        delta_t.finite() && delta_t.value() >= pow2(149) ==> r.value() <= delta_t.value()
            < r.value() + pow2(149),
        !delta_t.finite() || delta_t.value() < pow2(149) ==> r.value() == pow2(149),
{
    proof {
        crate::single::lemma_one();
        Single::one().lemma_rank(delta_t);
    }
    if !delta_t.is_finite() {
        proof {
            lemma_pow2_pos(149);
            vstd::arithmetic::div_mod::lemma_mod_self_0(pow2(149) as int);
        }
        return Single::one();
    }
    let clamped = delta_t.max(Single::one());
    proof {
        lemma_pow2_pos(149);
        vstd::arithmetic::div_mod::lemma_div_by_self(pow2(149) as int);
    }
    proof {
        let day = pow2(149) as int;
        vstd::arithmetic::div_mod::lemma_fundamental_div_mod(clamped.value(), day);
        vstd::arithmetic::div_mod::lemma_mod_multiples_basic(clamped.value() / day, day);
        assert(day * (clamped.value() / day) == (clamped.value() / day) * day) by (nonlinear_arith);
    }
    clamped.floor()
}

/// Reviews with no interval below 0: a negative one, or one that is not a number, becomes 0.
pub open spec fn normalized(reviews: Seq<FSRSReview>) -> Seq<FSRSReview> {
    reviews.map_values(
        |review: FSRSReview|
            (FSRSReview { rating: review.rating, delta_t: review.delta_t.larger(Single::zero()) }),
    )
}

/// Takes intervals below 0 out of a training set.
pub fn normalize_training_set(train_set: Vec<FSRSItem>) -> (r: Vec<FSRSItem>)
    ensures
        views(r@) == views(train_set@).map_values(|reviews: Seq<FSRSReview>| normalized(reviews)),
        r@.len() == train_set@.len(),
        forall|i: int|
            0 <= i < r@.len() ==> (#[trigger] r@[i])@.len() == train_set@[i]@.len() && forall|j: int|
                #![trigger r@[i]@[j]]
                0 <= j < r@[i]@.len() ==> {
                    let given = train_set@[i]@[j];
                    let left = r@[i]@[j];
                    &&& left.rating == given.rating
                    &&& Single::zero().below(given.delta_t) ==> left.delta_t == given.delta_t
                    &&& !Single::zero().below(given.delta_t) ==> left.delta_t.same(Single::zero())
                },
{
    let mut r: Vec<FSRSItem> = Vec::with_capacity(train_set.len());
    let mut i: usize = 0;
    while i < train_set.len()
        invariant
            i <= train_set@.len(),
            r@.len() == i,
            forall|j: int| 0 <= j < i ==> (#[trigger] r@[j])@ == normalized(train_set@[j]@),
        decreases train_set@.len() - i,
    {
        let item = &train_set[i];
        let mut reviews: Vec<FSRSReview> = Vec::with_capacity(item.reviews.len());
        let mut j: usize = 0;
        while j < item.reviews.len()
            invariant
                j <= item@.len(),
                reviews@ == normalized(item@).take(j as int),
            decreases item@.len() - j,
        {
            let review = item.reviews[j];
            reviews.push(
                FSRSReview { rating: review.rating, delta_t: review.delta_t.max(Single::zero()) },
            );
            j += 1;
            assert(normalized(item@).take(j as int) =~= normalized(item@).take(j - 1).push(
                normalized(item@)[j - 1],
            ));
        }
        assert(normalized(item@).take(j as int) =~= normalized(item@));
        r.push(FSRSItem { reviews });
        i += 1;
    }
    assert(views(r@) =~= views(train_set@).map_values(
        |reviews: Seq<FSRSReview>| normalized(reviews),
    ));
    proof {
        assert forall|i: int| 0 <= i < r@.len() implies (#[trigger] r@[i])@.len()
            == train_set@[i]@.len() && forall|j: int|
            #![trigger r@[i]@[j]]
            0 <= j < r@[i]@.len() ==> {
                let given = train_set@[i]@[j];
                let left = r@[i]@[j];
                &&& left.rating == given.rating
                &&& Single::zero().below(given.delta_t) ==> left.delta_t == given.delta_t
                &&& !Single::zero().below(given.delta_t) ==> left.delta_t.same(Single::zero())
            } by {
            law_normalizing_leaves_positive_intervals(train_set@[i]@);
        }
    }
    r
}

/// Normalising leaves every positive interval as it is, down to its pattern, and every other
/// interval becomes 0: a negative one, and one that is not a number. So an interval that is a
/// number and at least 0 stays the same number, and one of less than a day is not lost.
pub proof fn law_normalizing_leaves_positive_intervals(reviews: Seq<FSRSReview>)
    ensures
        normalized(reviews).len() == reviews.len(),
        forall|i: int|
            #![trigger normalized(reviews)[i]]
            #![trigger reviews[i]]
            0 <= i < reviews.len() ==> {
                let left = normalized(reviews)[i];
                &&& left.rating == reviews[i].rating
                &&& Single::zero().below(reviews[i].delta_t) ==> left == reviews[i]
                &&& Single::zero().at_most(reviews[i].delta_t) ==> left.delta_t.same(
                    reviews[i].delta_t,
                )
                &&& !Single::zero().below(reviews[i].delta_t) ==> left.delta_t.same(Single::zero())
            },
{
    assert forall|i: int|
        #![trigger normalized(reviews)[i]]
        #![trigger reviews[i]]
        0 <= i < reviews.len() implies {
        let left = normalized(reviews)[i];
        &&& left.rating == reviews[i].rating
        &&& Single::zero().below(reviews[i].delta_t) ==> left == reviews[i]
        &&& Single::zero().at_most(reviews[i].delta_t) ==> left.delta_t.same(reviews[i].delta_t)
        &&& !Single::zero().below(reviews[i].delta_t) ==> left.delta_t.same(Single::zero())
    } by {
        crate::single::lemma_zero();
    }
}

/// A review is a long-term one if and only if its interval is a number of a day or more.
pub proof fn law_long_term_is_a_day_or_more(review: FSRSReview)
    ensures
        long_term(review) <==> !review.delta_t.nan() && review.delta_t.value() >= pow2(149),
{
    crate::single::lemma_one();
}

/// Normalising twice is normalising once, and no interval is left below 0.
pub proof fn law_normalizing_twice_is_normalizing_once(reviews: Seq<FSRSReview>)
    ensures
        normalized(normalized(reviews)) == normalized(reviews),
        forall|i: int|
            0 <= i < reviews.len() ==> Single::zero().at_most(
                (#[trigger] normalized(reviews)[i]).delta_t,
            ),
{
    assert forall|i: int| 0 <= i < reviews.len() implies {
        &&& Single::zero().at_most((#[trigger] normalized(reviews)[i]).delta_t)
        &&& normalized(normalized(reviews))[i] == normalized(reviews)[i]
    } by {
        crate::single::lemma_zero();
    }
    assert(normalized(normalized(reviews)) =~= normalized(reviews));
}

/// Normalising changes no rating and no long-term review.
pub proof fn law_normalizing_keeps_long_term_reviews(reviews: Seq<FSRSReview>)
    ensures
        normalized(reviews).len() == reviews.len(),
        forall|i: int|
            0 <= i < reviews.len() ==> (#[trigger] normalized(reviews)[i]).rating == reviews[i].rating,
        long_term_reviews(normalized(reviews)) == long_term_reviews(reviews),
    decreases reviews.len(),
{
    let wanted = |review: FSRSReview| long_term(review);
    reveal(Seq::filter);
    if reviews.len() > 0 {
        let rest = reviews.drop_last();
        law_normalizing_keeps_long_term_reviews(rest);
        assert(normalized(reviews).drop_last() =~= normalized(rest));
        assert(normalized(reviews).last().delta_t == reviews.last().delta_t.larger(Single::zero()));
        assert(long_term(normalized(reviews).last()) == long_term(reviews.last()) && (long_term(
            reviews.last(),
        ) ==> normalized(reviews).last() == reviews.last())) by {
            crate::single::lemma_zero();
            crate::single::lemma_one();
            lemma_pow2_pos(149);
        }
    } else {
        assert(normalized(reviews) =~= reviews);
    }
}

/// The whole days in an interval of a day or more are as many as fit into it; any other
/// interval counts as one day.
pub proof fn law_whole_days_fit_into_the_interval(delta_t: Single)
    ensures
        whole_days(delta_t) >= 1,
        delta_t.finite() && delta_t.value() >= pow2(149) ==> whole_days(delta_t) * pow2(149)
            <= delta_t.value() < (whole_days(delta_t) + 1) * pow2(149),
        !delta_t.finite() || delta_t.value() < pow2(149) ==> whole_days(delta_t) == 1,
{
    crate::single::lemma_one();
    lemma_pow2_pos(149);
    let day = pow2(149) as int;
    if delta_t.finite() && delta_t.value() >= day {
        let n = delta_t.value() / day;
        vstd::arithmetic::div_mod::lemma_fundamental_div_mod(delta_t.value(), day);
        vstd::arithmetic::div_mod::lemma_mod_bound(delta_t.value(), day);
        assert(day * n == n * day && (n + 1) * day == n * day + day) by (nonlinear_arith);
        vstd::arithmetic::div_mod::lemma_div_is_ordered(day, delta_t.value(), day);
        vstd::arithmetic::div_mod::lemma_div_by_self(day);
    }
}

/// Two items are equal if and only if they have as many reviews, and each pair of reviews has
/// the same rating, and intervals that are the same number.
pub proof fn law_when_items_are_equal(a: Seq<FSRSReview>, b: Seq<FSRSReview>)
    ensures
        same_reviews(a, b) <==> a.len() == b.len() && forall|i: int|
            #![trigger a[i]]
            0 <= i < a.len() ==> a[i].rating == b[i].rating && !a[i].delta_t.nan()
                && !b[i].delta_t.nan() && a[i].delta_t.value() == b[i].delta_t.value(),
{
}

} // verus!
