//! Memory states.

use crate::batch::{items_to_histories, Histories};
use crate::error::FSRSError;
use crate::model::FSRS;
use crate::review::{FSRSItem, FSRSReview};
use crate::single::Single;
use vstd::prelude::*;
use vstd::std_specs::cmp::PartialEqSpecImpl;

verus! {

/// What is remembered of a card. `==` in code compares each part as a number.
#[derive(Clone, Copy, Debug)]
pub struct MemoryState {
    /// The stability of the slow trace, in days.
    pub stability: Single,
    /// 1 to 10.
    pub difficulty: Single,
    /// The stability of the fast trace, in days.
    pub stability_fast: Single,
}

impl MemoryState {
    /// The state of a card that was never reviewed: all 0.
    #[verifier::allow_in_spec]
    pub fn zeros() -> (r: MemoryState)
        returns
            (MemoryState {
                stability: Single { bits: 0 },
                difficulty: Single { bits: 0 },
                stability_fast: Single { bits: 0 },
            }),
    {
        MemoryState {
            stability: Single { bits: 0 },
            difficulty: Single { bits: 0 },
            stability_fast: Single { bits: 0 },
        }
    }
}

impl MemoryState {
    /// Whether a part of the state is not a number.
    pub open spec fn has_nan(self) -> bool {
        self.stability.nan() || self.difficulty.nan() || self.stability_fast.nan()
    }

    /// Whether each part of two states is the same number.
    pub open spec fn same(self, other: MemoryState) -> bool {
        &&& self.stability.same(other.stability)
        &&& self.difficulty.same(other.difficulty)
        &&& self.stability_fast.same(other.stability_fast)
    }
}

impl PartialEq for MemoryState {
    fn eq(&self, other: &MemoryState) -> (r: bool) {
        self.stability == other.stability && self.difficulty == other.difficulty
            && self.stability_fast == other.stability_fast
    }
}

impl PartialEqSpecImpl for MemoryState {
    open spec fn obeys_eq_spec() -> bool {
        true
    }

    open spec fn eq_spec(&self, other: &MemoryState) -> bool {
        self.same(*other)
    }
}

/// Memory states, one column for each part.
#[derive(Debug)]
pub struct MemoryColumns {
    /// The stabilities.
    pub stability: Vec<Single>,
    /// The difficulties.
    pub difficulty: Vec<Single>,
    /// The stabilities of the fast trace.
    pub stability_fast: Vec<Single>,
}

impl MemoryColumns {
    /// Whether these are the columns of the states given.
    pub open spec fn holds(self, states: Seq<MemoryState>) -> bool {
        &&& self.stability@ == states.map_values(|state: MemoryState| state.stability)
        &&& self.difficulty@ == states.map_values(|state: MemoryState| state.difficulty)
        &&& self.stability_fast@ == states.map_values(|state: MemoryState| state.stability_fast)
    }

    /// The number of states that all three columns have.
    pub open spec fn shortest(self) -> int {
        let a = self.stability@.len() as int;
        let b = self.difficulty@.len() as int;
        let c = self.stability_fast@.len() as int;
        if a <= b && a <= c {
            a
        } else if b <= c {
            b
        } else {
            c
        }
    }

    /// The states that the columns hold, as far as all three go.
    pub open spec fn states(self) -> Seq<MemoryState> {
        Seq::new(
            self.shortest() as nat,
            |i: int|
                (MemoryState {
                    stability: self.stability@[i],
                    difficulty: self.difficulty@[i],
                    stability_fast: self.stability_fast@[i],
                }),
        )
    }

    /// The states that the columns hold, as far as all three go.
    pub fn to_states(&self) -> (r: Vec<MemoryState>)
        ensures
            r@ == self.states(),
    {
        let mut r: Vec<MemoryState> = Vec::with_capacity(self.stability.len());
        let mut i: usize = 0;
        while i < self.stability.len() && i < self.difficulty.len() && i < self.stability_fast.len()
            invariant
                i <= self.shortest(),
                r@ == self.states().take(i as int),
            decreases self.shortest() - i,
        {
            r.push(
                MemoryState {
                    stability: self.stability[i],
                    difficulty: self.difficulty[i],
                    stability_fast: self.stability_fast[i],
                },
            );
            i += 1;
            assert(self.states().take(i as int) =~= self.states().take(i - 1).push(
                self.states()[i - 1],
            ));
        }
        assert(self.states().take(i as int) =~= self.states());
        r
    }
}

/// The states to start from: all 0 where none is given.
pub open spec fn started(starting_states: Seq<Option<MemoryState>>) -> Seq<MemoryState> {
    starting_states.map_values(
        |state: Option<MemoryState>|
            match state {
                Some(s) => s,
                None => MemoryState::zeros(),
            },
    )
}

/// The states to start from: all 0 where none is given.
pub fn starting_memory(starting_states: &Vec<Option<MemoryState>>) -> (r: Vec<MemoryState>)
    ensures
        r@ == started(starting_states@),
{
    let mut r: Vec<MemoryState> = Vec::with_capacity(starting_states.len());
    let mut i: usize = 0;
    while i < starting_states.len()
        invariant
            i <= starting_states@.len(),
            r@ == started(starting_states@).take(i as int),
        decreases starting_states@.len() - i,
    {
        r.push(
            match starting_states[i] {
                Some(s) => s,
                None => MemoryState::zeros(),
            },
        );
        i += 1;
        assert(started(starting_states@).take(i as int) =~= started(starting_states@).take(
            i - 1,
        ).push(started(starting_states@)[i - 1]));
    }
    assert(started(starting_states@).take(i as int) =~= started(starting_states@));
    r
}

/// The columns of states.
pub fn columns_of(states: &Vec<MemoryState>) -> (r: MemoryColumns)
    ensures
        r.holds(states@),
{
    let mut stability: Vec<Single> = Vec::with_capacity(states.len());
    let mut difficulty: Vec<Single> = Vec::with_capacity(states.len());
    let mut stability_fast: Vec<Single> = Vec::with_capacity(states.len());
    let mut i: usize = 0;
    while i < states.len()
        invariant
            i <= states@.len(),
            stability@.len() == i,
            difficulty@.len() == i,
            stability_fast@.len() == i,
            forall|j: int| 0 <= j < i ==> #[trigger] stability@[j] == states@[j].stability,
            forall|j: int| 0 <= j < i ==> #[trigger] difficulty@[j] == states@[j].difficulty,
            forall|j: int|
                0 <= j < i ==> #[trigger] stability_fast@[j] == states@[j].stability_fast,
        decreases states@.len() - i,
    {
        stability.push(states[i].stability);
        difficulty.push(states[i].difficulty);
        stability_fast.push(states[i].stability_fast);
        i += 1;
    }
    let r = MemoryColumns { stability, difficulty, stability_fast };
    assert(r.stability@ =~= states@.map_values(|state: MemoryState| state.stability));
    assert(r.difficulty@ =~= states@.map_values(|state: MemoryState| state.difficulty));
    assert(r.stability_fast@ =~= states@.map_values(|state: MemoryState| state.stability_fast));
    r
}

/// Whether `end` may be the states after all reviews of items, from the states given.
pub open spec fn remembered<U, I, N>(
    update: U,
    initial: I,
    nan: N,
    w: Seq<Single>,
    items: Seq<Seq<FSRSReview>>,
    starting_states: Seq<Option<MemoryState>>,
    end: Seq<MemoryState>,
) -> bool where
    U: Fn(&Vec<Single>, &Vec<Single>, &Vec<u32>, &Vec<MemoryState>) -> Vec<MemoryState>,
    I: Fn(&Vec<Single>, &Vec<u32>) -> Vec<MemoryState>,
    N: Fn(Single, Single, Single) -> Single,
 {
    exists|histories: Histories| #[trigger]
        crate::forward::forwarded(
            update,
            initial,
            nan,
            w,
            histories,
            started(starting_states),
            end,
        ) && histories.holds(items)
}

impl FSRS {
    /// The memory states after all reviews of the items, from the states given.
    ///
    /// `update`, `initial` and `nan` are what they are for `Model::forward`; they are not
    /// asked where there are no items. There is a state to start from, or none, for each item.
    pub fn memory_state_batch<U, I, N>(
        &self,
        items: Vec<FSRSItem>,
        starting_states: Vec<Option<MemoryState>>,
        update: &U,
        initial: &I,
        nan: &N,
    ) -> (r: Result<Vec<MemoryState>, FSRSError>) where
        U: Fn(&Vec<Single>, &Vec<Single>, &Vec<u32>, &Vec<MemoryState>) -> Vec<MemoryState>,
        I: Fn(&Vec<Single>, &Vec<u32>) -> Vec<MemoryState>,
        N: Fn(Single, Single, Single) -> Single,

        requires
            crate::batch::indexable(crate::review::views(items@), items@.len()),
            (exists|i: int| 0 <= i < items@.len() && (#[trigger] items@[i])@.len() > 0)
                ==> starting_states@.len() == items@.len(),
            items@.len() > 0 ==> crate::forward::computes_rows(
                *update,
                *initial,
                self.parameters(),
                items@.len(),
            ),
            crate::hold::answers(*nan),
        ensures
            r is Ok,
            items@.len() == 0 ==> r->Ok_0@ == Seq::<MemoryState>::empty(),
            items@.len() > 0 ==> remembered(
                *update,
                *initial,
                *nan,
                self.parameters(),
                crate::review::views(items@),
                starting_states@,
                r->Ok_0@,
            ),
            (exists|i: int| 0 <= i < items@.len() && (#[trigger] items@[i])@.len() > 0)
                ==> r->Ok_0@.len() == items@.len() && forall|i: int|
                0 <= i < r->Ok_0@.len() ==> crate::hold::reached(*nan, #[trigger] r->Ok_0@[i]),
    {
        if items.len() == 0 {
            return Ok(Vec::new());
        }
        let histories = items_to_histories(&items);
        let start = starting_memory(&starting_states);
        proof {
            let of = crate::review::views(items@);
            assert(histories.intervals@.len() == histories.rows * histories.columns);
            if histories.rows > 0 {
                let c = choose|c: int|
                    0 <= c < of.len() && (#[trigger] of[c]).len() == histories.rows;
                assert(items@[c]@.len() > 0);
            } else {
                assert forall|i: int| 0 <= i < items@.len() implies (#[trigger] items@[i])@.len() == 0 by {
                    assert(of[i].len() <= histories.rows);
                }
            }
        }
        let end = self.model().forward(&histories, Some(start), update, initial, nan);
        assert(crate::forward::forwarded(
            *update,
            *initial,
            *nan,
            self.parameters(),
            histories,
            started(starting_states@),
            end@,
        ));
        Ok(end)
    }
}

proof fn lemma_model_keeps_padding<N: Fn(Single, Single, Single) -> Single>(
    nan: N,
    initial_of: spec_fn(u32) -> MemoryState,
    update_of: spec_fn(Single, u32, MemoryState) -> MemoryState,
    nan_of: spec_fn(Single, Single, Single) -> Single,
)
    requires
        crate::hold::settles(nan, nan_of),
    ensures
        forall|state: MemoryState, review: FSRSReview, first: bool| #[trigger]
            crate::forward::model_of(initial_of, update_of, nan_of)(
                crate::forward::model_of(initial_of, update_of, nan_of)(state, review, first),
                FSRSReview { rating: 0, delta_t: Single::zero() },
                false,
            ) == crate::forward::model_of(initial_of, update_of, nan_of)(state, review, first),
{
    let model = crate::forward::model_of(initial_of, update_of, nan_of);
    let padding = FSRSReview { rating: 0, delta_t: Single::zero() };
    assert forall|state: MemoryState, review: FSRSReview, first: bool| #[trigger]
        model(model(state, review, first), padding, false) == model(state, review, first) by {
        lemma_reviewed_states_are_kept(
            nan,
            initial_of,
            update_of,
            nan_of,
            state,
            review,
            first,
        );
        assert(crate::hold::kept(nan_of, model(state, review, first)));
    }
}

proof fn lemma_reviewed_states_are_kept<N: Fn(Single, Single, Single) -> Single>(
    nan: N,
    initial_of: spec_fn(u32) -> MemoryState,
    update_of: spec_fn(Single, u32, MemoryState) -> MemoryState,
    nan_of: spec_fn(Single, Single, Single) -> Single,
    state: MemoryState,
    review: FSRSReview,
    first: bool,
)
    requires
        crate::hold::settles(nan, nan_of),
    ensures
        crate::hold::kept(
            nan_of,
            crate::forward::reviewed_by(initial_of, update_of, nan_of, state, review, first),
        ),
{
    let last = crate::hold::state_of(nan_of, state);
    crate::hold::law_holding_twice_is_holding_once(nan, nan_of, state);
    crate::hold::law_holding_twice_is_holding_once(
        nan,
        nan_of,
        initial_of(crate::step::held_rating(review.rating)),
    );
    crate::hold::law_holding_twice_is_holding_once(
        nan,
        nan_of,
        update_of(review.delta_t, review.rating, last),
    );
}

proof fn lemma_padding_from_a_state(
    initial_of: spec_fn(u32) -> MemoryState,
    update_of: spec_fn(Single, u32, MemoryState) -> MemoryState,
    nan_of: spec_fn(Single, Single, Single) -> Single,
    start: MemoryState,
    rows: nat,
)
    requires
        crate::hold::kept(nan_of, start),
    ensures
        crate::walk::run(
            crate::forward::model_of(initial_of, update_of, nan_of),
            start,
            Seq::new(rows, |t: int| crate::batch::cell(Seq::empty(), t)),
        ) == start,
    decreases rows,
{
    if rows > 0 {
        let fewer = (rows - 1) as nat;
        lemma_padding_from_a_state(initial_of, update_of, nan_of, start, fewer);
        let column = Seq::new(rows, |t: int| crate::batch::cell(Seq::empty(), t));
        assert(column.drop_last() =~= Seq::new(
            fewer,
            |t: int| crate::batch::cell(Seq::empty(), t),
        ));
    }
}

/// Whether a model computes numbers from numbers.
pub open spec fn computes_numbers(
    initial_of: spec_fn(u32) -> MemoryState,
    update_of: spec_fn(Single, u32, MemoryState) -> MemoryState,
) -> bool {
    &&& forall|rating: u32| !(#[trigger] initial_of(rating)).has_nan()
    &&& forall|interval: Single, rating: u32, last: MemoryState|
        !last.has_nan() ==> !(#[trigger] update_of(interval, rating, last)).has_nan()
}

/// Where a model computes numbers from numbers, every state after a review of a card that
/// started from numbers is in range.
pub proof fn law_numbers_stay_in_range(
    initial_of: spec_fn(u32) -> MemoryState,
    update_of: spec_fn(Single, u32, MemoryState) -> MemoryState,
    nan_of: spec_fn(Single, Single, Single) -> Single,
    start: MemoryState,
    reviews: Seq<FSRSReview>,
)
    requires
        computes_numbers(initial_of, update_of),
        !start.has_nan(),
    ensures
        ({
            let end = crate::walk::run(
                crate::forward::model_of(initial_of, update_of, nan_of),
                start,
                reviews,
            );
            &&& !end.has_nan()
            &&& reviews.len() > 0 ==> crate::step::within(end)
        }),
    decreases reviews.len(),
{
    if reviews.len() > 0 {
        let model = crate::forward::model_of(initial_of, update_of, nan_of);
        let review = reviews.last();
        let state = crate::walk::run(model, start, reviews.drop_last());
        law_numbers_stay_in_range(initial_of, update_of, nan_of, start, reviews.drop_last());
        let last = crate::hold::state_of(nan_of, state);
        assert(last == crate::step::bounded(state));
        crate::step::law_states_stay_in_range(state);
        crate::step::law_padding_keeps_the_state(last);
        crate::step::law_states_stay_in_range(
            initial_of(crate::step::held_rating(review.rating)),
        );
        crate::step::law_states_stay_in_range(
            update_of(review.delta_t, review.rating, last),
        );
    }
}

/// Whether item `i` ends as it would by itself: it was reviewed, or it starts in range, or
/// no item was reviewed. (An item without reviews beside one with reviews is held in range.)
pub open spec fn ends_alone(
    items: Seq<Seq<FSRSReview>>,
    starting_states: Seq<Option<MemoryState>>,
    nan_of: spec_fn(Single, Single, Single) -> Single,
    i: int,
) -> bool {
    ||| items[i].len() > 0
    ||| crate::hold::kept(nan_of, started(starting_states)[i])
    ||| forall|j: int| 0 <= j < items.len() ==> (#[trigger] items[j]).len() == 0
}

/// The state of an item is that of the item by itself: it does not depend on the items
/// beside it, nor on how far its reviews are padded, where the functions passed in compute
/// each column by itself. It is what the reviews of the item make of the state that it
/// started from. Where the item was reviewed, holding its state again changes nothing; it is
/// in range where the functions compute numbers from numbers.
pub proof fn law_items_are_remembered_alone<U, I, N>(
    update: U,
    initial: I,
    nan: N,
    w: Seq<Single>,
    items: Seq<Seq<FSRSReview>>,
    starting_states: Seq<Option<MemoryState>>,
    end: Seq<MemoryState>,
    alone: Seq<MemoryState>,
    initial_of: spec_fn(u32) -> MemoryState,
    update_of: spec_fn(Single, u32, MemoryState) -> MemoryState,
    nan_of: spec_fn(Single, Single, Single) -> Single,
    i: int,
) where
    U: Fn(&Vec<Single>, &Vec<Single>, &Vec<u32>, &Vec<MemoryState>) -> Vec<MemoryState>,
    I: Fn(&Vec<Single>, &Vec<u32>) -> Vec<MemoryState>,
    N: Fn(Single, Single, Single) -> Single,

    requires
        remembered(update, initial, nan, w, items, starting_states, end),
        remembered(update, initial, nan, w, seq![items[i]], seq![starting_states[i]], alone),
        crate::forward::by_column(update, initial, nan, w, initial_of, update_of, nan_of),
        crate::hold::settles(nan, nan_of),
        starting_states.len() == items.len(),
        0 <= i < items.len(),
        ends_alone(items, starting_states, nan_of, i),
    ensures
        end.len() == items.len(),
        alone.len() == 1,
        end[i] == alone[0],
        end[i] == crate::walk::run(
            crate::forward::model_of(initial_of, update_of, nan_of),
            started(starting_states)[i],
            items[i],
        ),
        items[i].len() > 0 ==> crate::hold::kept(nan_of, end[i]),
        items[i].len() > 0 && computes_numbers(initial_of, update_of)
            && !started(starting_states)[i].has_nan() ==> crate::step::within(end[i]),
{
    if computes_numbers(initial_of, update_of) && !started(starting_states)[i].has_nan() {
        law_numbers_stay_in_range(
            initial_of,
            update_of,
            nan_of,
            started(starting_states)[i],
            items[i],
        );
    }
    crate::memory::lemma_end_of_item(
        update,
        initial,
        nan,
        w,
        items,
        starting_states,
        end,
        initial_of,
        update_of,
        nan_of,
        i,
    );
    assert(started(seq![starting_states[i]])[0] == started(starting_states)[i]);
    crate::memory::lemma_end_of_item(
        update,
        initial,
        nan,
        w,
        seq![items[i]],
        seq![starting_states[i]],
        alone,
        initial_of,
        update_of,
        nan_of,
        0,
    );
}

proof fn lemma_end_of_item<U, I, N>(
    update: U,
    initial: I,
    nan: N,
    w: Seq<Single>,
    items: Seq<Seq<FSRSReview>>,
    starting_states: Seq<Option<MemoryState>>,
    end: Seq<MemoryState>,
    initial_of: spec_fn(u32) -> MemoryState,
    update_of: spec_fn(Single, u32, MemoryState) -> MemoryState,
    nan_of: spec_fn(Single, Single, Single) -> Single,
    i: int,
) where
    U: Fn(&Vec<Single>, &Vec<Single>, &Vec<u32>, &Vec<MemoryState>) -> Vec<MemoryState>,
    I: Fn(&Vec<Single>, &Vec<u32>) -> Vec<MemoryState>,
    N: Fn(Single, Single, Single) -> Single,

    requires
        remembered(update, initial, nan, w, items, starting_states, end),
        crate::forward::by_column(update, initial, nan, w, initial_of, update_of, nan_of),
        crate::hold::settles(nan, nan_of),
        starting_states.len() == items.len(),
        0 <= i < items.len(),
        ends_alone(items, starting_states, nan_of, i),
    ensures
        end.len() == items.len(),
        end[i] == crate::walk::run(
            crate::forward::model_of(initial_of, update_of, nan_of),
            started(starting_states)[i],
            items[i],
        ),
        items[i].len() > 0 ==> crate::hold::kept(nan_of, end[i]),
{
    let model = crate::forward::model_of(initial_of, update_of, nan_of);
    let start = started(starting_states);
    let histories = choose|histories: Histories| #[trigger]
        crate::forward::forwarded(update, initial, nan, w, histories, start, end) && histories.holds(
            items,
        );
    let states = choose|states: Seq<Seq<MemoryState>>| #[trigger]
        crate::forward::ran(update, initial, nan, w, histories, states) && states.len()
            == histories.rows + 1 && states[0] == start && end == states.last();
    let rows = histories.rows as int;
    crate::forward::law_columns_do_not_affect_each_other(
        update,
        initial,
        nan,
        w,
        histories,
        items,
        states,
        initial_of,
        update_of,
        nan_of,
        i,
        rows,
    );
    let column = Seq::new(rows as nat, |u: int| crate::batch::cell(items[i], u));
    assert(end[i] == crate::walk::run(model, start[i], column));
    if items[i].len() > 0 {
        lemma_model_keeps_padding(nan, initial_of, update_of, nan_of);
        crate::walk::law_padding_does_not_change_the_end(model, start[i], items[i], rows);
        lemma_reviewed_states_are_kept(
            nan,
            initial_of,
            update_of,
            nan_of,
            crate::walk::run(model, start[i], items[i].drop_last()),
            items[i].last(),
            items[i].len() == 1,
        );
    } else {
        assert(items[i] =~= Seq::empty());
        if crate::hold::kept(nan_of, start[i]) {
            lemma_padding_from_a_state(initial_of, update_of, nan_of, start[i], rows as nat);
        } else {
            assert(rows == 0);
            assert(column =~= Seq::empty());
        }
    }
}

/// The states that columns hold are the states that they were made of.
pub proof fn law_columns_give_states_back(columns: MemoryColumns, states: Seq<MemoryState>)
    requires
        columns.holds(states),
    ensures
        columns.states() == states,
{
    assert(columns.states() =~= states);
}

/// A card starts from the state that is given for it, and from one with nothing but zeros
/// where none is; each in its own place.
pub proof fn law_cards_start_from_what_is_given(starting_states: Seq<Option<MemoryState>>, i: int)
    requires
        0 <= i < starting_states.len(),
    ensures
        started(starting_states).len() == starting_states.len(),
        starting_states[i] matches Some(state) ==> started(starting_states)[i] == state,
        starting_states[i] is None ==> started(starting_states)[i].stability.bits == 0
            && started(starting_states)[i].difficulty.bits == 0
            && started(starting_states)[i].stability_fast.bits == 0,
{
}

/// Columns hold each part of each state in its own place.
pub proof fn law_columns_hold_each_part(columns: MemoryColumns, states: Seq<MemoryState>, i: int)
    requires
        columns.holds(states),
        0 <= i < states.len(),
    ensures
        columns.stability@.len() == states.len(),
        columns.stability@[i] == states[i].stability,
        columns.difficulty@[i] == states[i].difficulty,
        columns.stability_fast@[i] == states[i].stability_fast,
{
}

} // verus!
