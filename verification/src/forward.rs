//! Running a model over histories: one review of every column after the other.

use crate::batch::Histories;
use crate::hold::{hold_stability, hold_state};
use crate::memory::MemoryState;
use crate::model::Model;
use crate::review::FSRSReview;
use crate::single::Single;
use crate::step::{initial_stability_place, source, Source};
use vstd::prelude::*;

verus! {

/// Whether `next` may be the state after a review: where it comes from decides which of the
/// three it is, and it is held in range. `last` is the state before, held in range; its
/// difficulty is not held again.
pub open spec fn after_review<N: Fn(Single, Single, Single) -> Single>(
    nan: N,
    state: MemoryState,
    rating: u32,
    first: bool,
    last: MemoryState,
    begun: MemoryState,
    updated: MemoryState,
    next: MemoryState,
) -> bool {
    match crate::step::source_of(rating, first, state.stability) {
        Source::Padding => {
            &&& crate::hold::stability_held(nan, last.stability, next.stability)
            &&& next.difficulty == last.difficulty
            &&& crate::hold::stability_held(nan, last.stability_fast, next.stability_fast)
        },
        Source::Initial => crate::hold::state_held(nan, begun, next),
        Source::Review => crate::hold::state_held(nan, updated, next),
    }
}

/// Every rating held between 1 and 4.
pub open spec fn held_ratings(ratings: Seq<u32>) -> Seq<u32> {
    ratings.map_values(|rating: u32| crate::step::held_rating(rating))
}

/// Whether `last` may come of holding every state in range.
pub open spec fn all_held<N: Fn(Single, Single, Single) -> Single>(
    nan: N,
    states: Seq<MemoryState>,
    last: Seq<MemoryState>,
) -> bool {
    last.len() == states.len() && forall|c: int|
        0 <= c < last.len() ==> crate::hold::state_held(nan, states[c], #[trigger] last[c])
}

/// Whether `update` may compute `updated` from the parameters, a row of intervals and
/// ratings, and the states before, held in range.
pub open spec fn updated_row<U>(
    update: U,
    w: Seq<Single>,
    intervals: Seq<Single>,
    ratings: Seq<u32>,
    last: Seq<MemoryState>,
    updated: Seq<MemoryState>,
) -> bool where
    U: Fn(&Vec<Single>, &Vec<Single>, &Vec<u32>, &Vec<MemoryState>) -> Vec<MemoryState>,
 {
    exists|
        p: &Vec<Single>,
        i: &Vec<Single>,
        r: &Vec<u32>,
        states: &Vec<MemoryState>,
        out: Vec<MemoryState>,
    | #[trigger]
        call_ensures(update, (p, i, r, states), out) && p@ == w && i@ == intervals && r@ == ratings
            && states@ == last && out@ == updated
}

/// Whether `initial` may compute `begun` from the parameters and a row of ratings, held
/// between 1 and 4.
pub open spec fn begun_row<I>(
    initial: I,
    w: Seq<Single>,
    ratings: Seq<u32>,
    begun: Seq<MemoryState>,
) -> bool where I: Fn(&Vec<Single>, &Vec<u32>) -> Vec<MemoryState> {
    exists|p: &Vec<Single>, r: &Vec<u32>, out: Vec<MemoryState>| #[trigger]
        call_ensures(initial, (p, r), out) && p@ == w && r@ == held_ratings(ratings) && out@
            == begun
}

/// Whether `last`, `updated` and `begun` may be computed for a row: the states before held in
/// range, what `update` makes of them, and, where the reviews are the first, what `initial`
/// gives.
pub open spec fn computed_row<U, I, N>(
    update: U,
    initial: I,
    nan: N,
    w: Seq<Single>,
    intervals: Seq<Single>,
    ratings: Seq<u32>,
    first: bool,
    states: Seq<MemoryState>,
    last: Seq<MemoryState>,
    updated: Seq<MemoryState>,
    begun: Seq<MemoryState>,
) -> bool where
    U: Fn(&Vec<Single>, &Vec<Single>, &Vec<u32>, &Vec<MemoryState>) -> Vec<MemoryState>,
    I: Fn(&Vec<Single>, &Vec<u32>) -> Vec<MemoryState>,
    N: Fn(Single, Single, Single) -> Single,
 {
    &&& all_held(nan, states, last)
    &&& updated_row(update, w, intervals, ratings, last, updated)
    &&& first ==> begun_row(initial, w, ratings, begun)
}

/// Whether `next` may be the states after a row of reviews, computed from these.
pub open spec fn all_after<N: Fn(Single, Single, Single) -> Single>(
    nan: N,
    ratings: Seq<u32>,
    first: bool,
    states: Seq<MemoryState>,
    last: Seq<MemoryState>,
    updated: Seq<MemoryState>,
    begun: Seq<MemoryState>,
    next: Seq<MemoryState>,
) -> bool {
    next.len() == states.len() && forall|c: int|
        0 <= c < next.len() ==> after_review(
            nan,
            states[c],
            ratings[c],
            first,
            last[c],
            begun[c],
            updated[c],
            #[trigger] next[c],
        )
}

/// Whether `next` may be the states after a row of reviews.
pub open spec fn row_done<U, I, N>(
    update: U,
    initial: I,
    nan: N,
    w: Seq<Single>,
    intervals: Seq<Single>,
    ratings: Seq<u32>,
    first: bool,
    states: Seq<MemoryState>,
    next: Seq<MemoryState>,
) -> bool where
    U: Fn(&Vec<Single>, &Vec<Single>, &Vec<u32>, &Vec<MemoryState>) -> Vec<MemoryState>,
    I: Fn(&Vec<Single>, &Vec<u32>) -> Vec<MemoryState>,
    N: Fn(Single, Single, Single) -> Single,
 {
    exists|last: Seq<MemoryState>, updated: Seq<MemoryState>, begun: Seq<MemoryState>| #[trigger]
        computed_row(
            update,
            initial,
            nan,
            w,
            intervals,
            ratings,
            first,
            states,
            last,
            updated,
            begun,
        ) && all_after(nan, ratings, first, states, last, updated, begun, next)
}

/// One review of every column.
fn step<U, I, N>(
    w: &Vec<Single>,
    intervals: &Vec<Single>,
    ratings: &Vec<u32>,
    states: &Vec<MemoryState>,
    first: bool,
    update: &U,
    initial: &I,
    nan: &N,
) -> (r: Vec<MemoryState>) where
    U: Fn(&Vec<Single>, &Vec<Single>, &Vec<u32>, &Vec<MemoryState>) -> Vec<MemoryState>,
    I: Fn(&Vec<Single>, &Vec<u32>) -> Vec<MemoryState>,
    N: Fn(Single, Single, Single) -> Single,

    requires
        intervals@.len() == states@.len(),
        ratings@.len() == states@.len(),
        computes_rows(*update, *initial, w@, states@.len()),
        crate::hold::answers(*nan),
    ensures
        row_done(*update, *initial, *nan, w@, intervals@, ratings@, first, states@, r@),
{
    let mut last: Vec<MemoryState> = Vec::with_capacity(states.len());
    let mut held: Vec<u32> = Vec::with_capacity(states.len());
    let mut c: usize = 0;
    while c < states.len()
        invariant
            c <= states@.len(),
            ratings@.len() == states@.len(),
            crate::hold::answers(*nan),
            last@.len() == c,
            forall|d: int|
                0 <= d < c ==> crate::hold::state_held(*nan, states@[d], #[trigger] last@[d]),
            held@ == held_ratings(ratings@).take(c as int),
        decreases states@.len() - c,
    {
        last.push(hold_state(states[c], nan));
        held.push(initial_stability_place(ratings[c]) as u32 + 1);
        c += 1;
        assert(held_ratings(ratings@).take(c as int) =~= held_ratings(ratings@).take(c - 1).push(
            held_ratings(ratings@)[c - 1],
        ));
    }
    assert(held_ratings(ratings@).take(c as int) =~= held_ratings(ratings@));
    let updated = update(w, intervals, ratings, &last);
    let begun = if first {
        initial(w, &held)
    } else {
        Vec::new()
    };
    proof {
        assert(all_held(*nan, states@, last@));
        assert(call_ensures(*update, (w, intervals, ratings, &last), updated));
        assert(updated_row(*update, w@, intervals@, ratings@, last@, updated@));
        if first {
            assert(call_ensures(*initial, (w, &held), begun));
            assert(begun_row(*initial, w@, ratings@, begun@));
        }
        assert(computed_row(
            *update,
            *initial,
            *nan,
            w@,
            intervals@,
            ratings@,
            first,
            states@,
            last@,
            updated@,
            begun@,
        ));
    }
    let mut next: Vec<MemoryState> = Vec::with_capacity(states.len());
    let mut d: usize = 0;
    while d < states.len()
        invariant
            d <= states@.len(),
            ratings@.len() == states@.len(),
            crate::hold::answers(*nan),
            last@.len() == states@.len(),
            updated@.len() == states@.len(),
            first ==> begun@.len() == states@.len(),
            next@.len() == d,
            forall|c: int|
                0 <= c < d ==> after_review(
                    *nan,
                    states@[c],
                    ratings@[c],
                    first,
                    last@[c],
                    begun@[c],
                    updated@[c],
                    #[trigger] next@[c],
                ),
        decreases states@.len() - d,
    {
        let after = match source(ratings[d], first, states[d].stability) {
            Source::Padding => MemoryState {
                stability: hold_stability(last[d].stability, nan),
                difficulty: last[d].difficulty,
                stability_fast: hold_stability(last[d].stability_fast, nan),
            },
            Source::Initial => hold_state(begun[d], nan),
            Source::Review => hold_state(updated[d], nan),
        };
        next.push(after);
        d += 1;
    }
    assert(all_after(*nan, ratings@, first, states@, last@, updated@, begun@, next@));
    next
}

/// Whether `update` and `initial` compute a state for each of `n` columns.
pub open spec fn computes_rows<U, I>(update: U, initial: I, w: Seq<Single>, n: nat) -> bool where
    U: Fn(&Vec<Single>, &Vec<Single>, &Vec<u32>, &Vec<MemoryState>) -> Vec<MemoryState>,
    I: Fn(&Vec<Single>, &Vec<u32>) -> Vec<MemoryState>,
 {
    &&& forall|p: &Vec<Single>, i: &Vec<Single>, r: &Vec<u32>, last: &Vec<MemoryState>|
        p@ == w && i@.len() == n && r@.len() == n && last@.len() == n ==> #[trigger] call_requires(
            update,
            (p, i, r, last),
        )
    &&& forall|
        p: &Vec<Single>,
        i: &Vec<Single>,
        r: &Vec<u32>,
        last: &Vec<MemoryState>,
        out: Vec<MemoryState>,
    | #[trigger]
        call_ensures(update, (p, i, r, last), out) && p@ == w && last@.len() == n ==> out@.len() == n
    &&& forall|p: &Vec<Single>, r: &Vec<u32>|
        p@ == w && r@.len() == n ==> #[trigger] call_requires(initial, (p, r))
    &&& forall|p: &Vec<Single>, r: &Vec<u32>, out: Vec<MemoryState>| #[trigger]
        call_ensures(initial, (p, r), out) && p@ == w && r@.len() == n ==> out@.len() == n
}

/// Row `t` of a matrix with `columns` columns.
pub open spec fn row<A>(cells: Seq<A>, columns: int, t: int) -> Seq<A> {
    cells.subrange(t * columns, (t + 1) * columns)
}

/// Whether `states` may be the states before the first review and after each row.
pub open spec fn ran<U, I, N>(
    update: U,
    initial: I,
    nan: N,
    w: Seq<Single>,
    histories: Histories,
    states: Seq<Seq<MemoryState>>,
) -> bool where
    U: Fn(&Vec<Single>, &Vec<Single>, &Vec<u32>, &Vec<MemoryState>) -> Vec<MemoryState>,
    I: Fn(&Vec<Single>, &Vec<u32>) -> Vec<MemoryState>,
    N: Fn(Single, Single, Single) -> Single,
 {
    forall|t: int|
        0 <= t < states.len() - 1 ==> #[trigger] row_ran(update, initial, nan, w, histories, states, t)
}

/// Whether `states[t + 1]` may be the states after row `t`.
pub open spec fn row_ran<U, I, N>(
    update: U,
    initial: I,
    nan: N,
    w: Seq<Single>,
    histories: Histories,
    states: Seq<Seq<MemoryState>>,
    t: int,
) -> bool where
    U: Fn(&Vec<Single>, &Vec<Single>, &Vec<u32>, &Vec<MemoryState>) -> Vec<MemoryState>,
    I: Fn(&Vec<Single>, &Vec<u32>) -> Vec<MemoryState>,
    N: Fn(Single, Single, Single) -> Single,
 {
    row_done(
        update,
        initial,
        nan,
        w,
        row(histories.intervals@, histories.columns as int, t),
        row(histories.ratings@, histories.columns as int, t),
        t == 0,
        states[t],
        states[t + 1],
    )
}

/// Whether running a model over histories from `start` may end in `end`.
pub open spec fn forwarded<U, I, N>(
    update: U,
    initial: I,
    nan: N,
    w: Seq<Single>,
    histories: Histories,
    start: Seq<MemoryState>,
    end: Seq<MemoryState>,
) -> bool where
    U: Fn(&Vec<Single>, &Vec<Single>, &Vec<u32>, &Vec<MemoryState>) -> Vec<MemoryState>,
    I: Fn(&Vec<Single>, &Vec<u32>) -> Vec<MemoryState>,
    N: Fn(Single, Single, Single) -> Single,
 {
    exists|states: Seq<Seq<MemoryState>>| #[trigger]
        ran(update, initial, nan, w, histories, states) && states.len() == histories.rows + 1
            && states[0] == start && end == states.last()
}

fn cut<A: Copy>(cells: &Vec<A>, from: usize, to: usize) -> (r: Vec<A>)
    requires
        from <= to <= cells@.len(),
    ensures
        r@ == cells@.subrange(from as int, to as int),
{
    let mut r: Vec<A> = Vec::with_capacity(to - from);
    let mut i: usize = from;
    while i < to
        invariant
            from <= i <= to <= cells@.len(),
            r@ == cells@.subrange(from as int, i as int),
        decreases to - i,
    {
        r.push(cells[i]);
        i += 1;
        assert(cells@.subrange(from as int, i as int) =~= cells@.subrange(
            from as int,
            i - 1,
        ).push(cells@[i - 1]));
    }
    r
}

impl Model {
    /// The states after all reviews of histories, from the states given, or from none.
    ///
    /// `update` computes the states after a row of reviews from the parameters, the
    /// intervals and ratings of the row and the states before, held in range; `initial`
    /// computes those after first reviews from the parameters and the ratings, held
    /// between 1 and 4. What they give is held in range here. `nan` gives what comes of a
    /// part that is not a number and is held between two numbers.
    pub fn forward<U, I, N>(
        &self,
        histories: &Histories,
        starting_state: Option<Vec<MemoryState>>,
        update: &U,
        initial: &I,
        nan: &N,
    ) -> (r: Vec<MemoryState>) where
        U: Fn(&Vec<Single>, &Vec<Single>, &Vec<u32>, &Vec<MemoryState>) -> Vec<MemoryState>,
        I: Fn(&Vec<Single>, &Vec<u32>) -> Vec<MemoryState>,
        N: Fn(Single, Single, Single) -> Single,

        requires
            histories.intervals@.len() == histories.rows * histories.columns,
            histories.ratings@.len() == histories.rows * histories.columns,
            starting_state is Some && histories.rows > 0 ==> (starting_state->0)@.len()
                == histories.columns,
            computes_rows(*update, *initial, self.w@, histories.columns as nat),
            crate::hold::answers(*nan),
        ensures
            forwarded(
                *update,
                *initial,
                *nan,
                self.w@,
                *histories,
                begins_with(starting_state, histories.columns as nat),
                r@,
            ),
            histories.rows == 0 ==> r@ == begins_with(starting_state, histories.columns as nat),
            histories.rows > 0 ==> r@.len() == histories.columns,
            histories.rows > 0 ==> forall|c: int|
                0 <= c < r@.len() ==> crate::hold::reached(*nan, #[trigger] r@[c]),
    {
        let ghost begin = begins_with(starting_state, histories.columns as nat);
        let mut state = match starting_state {
            Some(state) => state,
            None => none_yet(histories.columns),
        };
        let ghost mut states: Seq<Seq<MemoryState>> = seq![state@];
        let count: usize = histories.intervals.len();
        let mut t: usize = 0;
        while t < histories.rows
            invariant
                t <= histories.rows,
                count == histories.rows * histories.columns,
                histories.intervals@.len() == count,
                histories.ratings@.len() == count,
                histories.rows > 0 ==> state@.len() == histories.columns,
                computes_rows(*update, *initial, self.w@, histories.columns as nat),
                crate::hold::answers(*nan),
                states.len() == t + 1,
                states[0] == begin,
                states.last() == state@,
                ran(*update, *initial, *nan, self.w@, *histories, states),
            decreases histories.rows - t,
        {
            proof {
                assert(0 <= t * histories.columns && (t + 1) * histories.columns == t
                    * histories.columns + histories.columns && (t + 1) * histories.columns
                    <= histories.rows * histories.columns) by (nonlinear_arith)
                    requires
                        0 <= t < histories.rows,
                        0 <= histories.columns,
                ;
            }
            let from: usize = t * histories.columns;
            let to: usize = from + histories.columns;
            let intervals = cut(&histories.intervals, from, to);
            let ratings = cut(&histories.ratings, from, to);
            let next = step(&self.w, &intervals, &ratings, &state, t == 0, update, initial, nan);
            proof {
                let before = states;
                states = states.push(next@);
                assert forall|u: int| 0 <= u < states.len() - 1 implies #[trigger] row_ran(
                    *update,
                    *initial,
                    *nan,
                    self.w@,
                    *histories,
                    states,
                    u,
                ) by {
                    if u < t {
                        assert(row_ran(*update, *initial, *nan, self.w@, *histories, before, u));
                        assert(states[u] == before[u] && states[u + 1] == before[u + 1]);
                    } else {
                        assert(states[u] == before.last());
                        assert(states[u + 1] == next@);
                    }
                }
            }
            state = next;
            t += 1;
        }
        proof {
            if histories.rows > 0 {
                let u = histories.rows - 1;
                assert(row_ran(*update, *initial, *nan, self.w@, *histories, states, u));
                crate::forward::lemma_rows_are_in_range(
                    *update,
                    *initial,
                    *nan,
                    self.w@,
                    row(histories.intervals@, histories.columns as int, u),
                    row(histories.ratings@, histories.columns as int, u),
                    u == 0,
                    states[u],
                    states[u + 1],
                );
            }
        }
        state
    }
}

proof fn lemma_rows_are_in_range<U, I, N>(
    update: U,
    initial: I,
    nan: N,
    w: Seq<Single>,
    intervals: Seq<Single>,
    ratings: Seq<u32>,
    first: bool,
    states: Seq<MemoryState>,
    next: Seq<MemoryState>,
) where
    U: Fn(&Vec<Single>, &Vec<Single>, &Vec<u32>, &Vec<MemoryState>) -> Vec<MemoryState>,
    I: Fn(&Vec<Single>, &Vec<u32>) -> Vec<MemoryState>,
    N: Fn(Single, Single, Single) -> Single,

    requires
        row_done(update, initial, nan, w, intervals, ratings, first, states, next),
    ensures
        next.len() == states.len(),
        forall|c: int| 0 <= c < next.len() ==> crate::hold::reached(nan, #[trigger] next[c]),
{
    let (last, updated, begun) = choose|
        last: Seq<MemoryState>,
        updated: Seq<MemoryState>,
        begun: Seq<MemoryState>,
    | #[trigger]
        computed_row(
            update,
            initial,
            nan,
            w,
            intervals,
            ratings,
            first,
            states,
            last,
            updated,
            begun,
        ) && all_after(nan, ratings, first, states, last, updated, begun, next);
    assert forall|c: int| 0 <= c < next.len() implies crate::hold::reached(
        nan,
        #[trigger] next[c],
    ) by {
        assert(crate::hold::state_held(nan, states[c], last[c]));
        crate::hold::law_held_states_are_in_range(nan, states[c], last[c]);
        match crate::step::source_of(ratings[c], first, states[c].stability) {
            Source::Padding => {
                let again = MemoryState { difficulty: states[c].difficulty, ..last[c] };
                crate::hold::law_held_states_are_in_range(nan, again, next[c]);
            },
            Source::Initial => {
                crate::hold::law_held_states_are_in_range(nan, begun[c], next[c]);
            },
            Source::Review => {
                crate::hold::law_held_states_are_in_range(nan, updated[c], next[c]);
            },
        }
    }
}

/// The states to begin with: all 0 where none are given.
pub open spec fn begins_with(starting_state: Option<Vec<MemoryState>>, n: nat) -> Seq<MemoryState> {
    match starting_state {
        Some(state) => state@,
        None => Seq::new(n, |c: int| MemoryState::zeros()),
    }
}

fn none_yet(n: usize) -> (r: Vec<MemoryState>)
    ensures
        r@ == Seq::new(n as nat, |c: int| MemoryState::zeros()),
{
    let mut r: Vec<MemoryState> = Vec::with_capacity(n);
    while r.len() < n
        invariant
            r@.len() <= n,
            forall|c: int| 0 <= c < r@.len() ==> #[trigger] r@[c] == MemoryState::zeros(),
        decreases n - r@.len(),
    {
        r.push(MemoryState::zeros());
    }
    assert(r@ =~= Seq::new(n as nat, |c: int| MemoryState::zeros()));
    r
}

/// What `initial_of`, `update_of` and `nan_of` make of a state and a review, for one column.
pub open spec fn reviewed_by(
    initial_of: spec_fn(u32) -> MemoryState,
    update_of: spec_fn(Single, u32, MemoryState) -> MemoryState,
    nan_of: spec_fn(Single, Single, Single) -> Single,
    state: MemoryState,
    review: FSRSReview,
    first: bool,
) -> MemoryState {
    let last = crate::hold::state_of(nan_of, state);
    match crate::step::source_of(review.rating, first, state.stability) {
        Source::Padding => MemoryState {
            stability: crate::hold::stability_of(nan_of, last.stability),
            difficulty: last.difficulty,
            stability_fast: crate::hold::stability_of(nan_of, last.stability_fast),
        },
        Source::Initial => crate::hold::state_of(
            nan_of,
            initial_of(crate::step::held_rating(review.rating)),
        ),
        Source::Review => crate::hold::state_of(
            nan_of,
            update_of(review.delta_t, review.rating, last),
        ),
    }
}

/// The model that `initial_of`, `update_of` and `nan_of` make up, for one column.
pub open spec fn model_of(
    initial_of: spec_fn(u32) -> MemoryState,
    update_of: spec_fn(Single, u32, MemoryState) -> MemoryState,
    nan_of: spec_fn(Single, Single, Single) -> Single,
) -> spec_fn(MemoryState, FSRSReview, bool) -> MemoryState {
    |state: MemoryState, review: FSRSReview, first: bool|
        reviewed_by(initial_of, update_of, nan_of, state, review, first)
}

/// Whether `update`, `initial` and `nan` compute each column by itself, as `update_of`,
/// `initial_of` and `nan_of` do.
pub open spec fn by_column<U, I, N>(
    update: U,
    initial: I,
    nan: N,
    w: Seq<Single>,
    initial_of: spec_fn(u32) -> MemoryState,
    update_of: spec_fn(Single, u32, MemoryState) -> MemoryState,
    nan_of: spec_fn(Single, Single, Single) -> Single,
) -> bool where
    U: Fn(&Vec<Single>, &Vec<Single>, &Vec<u32>, &Vec<MemoryState>) -> Vec<MemoryState>,
    I: Fn(&Vec<Single>, &Vec<u32>) -> Vec<MemoryState>,
    N: Fn(Single, Single, Single) -> Single,
 {
    &&& forall|
        p: &Vec<Single>,
        i: &Vec<Single>,
        r: &Vec<u32>,
        last: &Vec<MemoryState>,
        out: Vec<MemoryState>,
        c: int,
    |
        #![trigger call_ensures(update, (p, i, r, last), out), out@[c]]
        call_ensures(update, (p, i, r, last), out) && p@ == w && 0 <= c < last@.len() ==> out@[c]
            == update_of(i@[c], r@[c], last@[c])
    &&& forall|p: &Vec<Single>, r: &Vec<u32>, out: Vec<MemoryState>, c: int|
        #![trigger call_ensures(initial, (p, r), out), out@[c]]
        call_ensures(initial, (p, r), out) && p@ == w && 0 <= c < r@.len() ==> out@[c]
            == initial_of(r@[c])
    &&& forall|x: Single, low: Single, high: Single, y: Single| #[trigger]
        call_ensures(nan, (x, low, high), y) ==> y == nan_of(x, low, high)
}

/// Running a model over histories together gives what running it over each column by
/// itself gives, where the functions passed in compute each column by itself.
pub proof fn law_columns_do_not_affect_each_other<U, I, N>(
    update: U,
    initial: I,
    nan: N,
    w: Seq<Single>,
    histories: Histories,
    of: Seq<Seq<FSRSReview>>,
    states: Seq<Seq<MemoryState>>,
    initial_of: spec_fn(u32) -> MemoryState,
    update_of: spec_fn(Single, u32, MemoryState) -> MemoryState,
    nan_of: spec_fn(Single, Single, Single) -> Single,
    c: int,
    t: int,
) where
    U: Fn(&Vec<Single>, &Vec<Single>, &Vec<u32>, &Vec<MemoryState>) -> Vec<MemoryState>,
    I: Fn(&Vec<Single>, &Vec<u32>) -> Vec<MemoryState>,
    N: Fn(Single, Single, Single) -> Single,

    requires
        histories.holds(of),
        ran(update, initial, nan, w, histories, states),
        states.len() == histories.rows + 1,
        states[0].len() == histories.columns,
        by_column(update, initial, nan, w, initial_of, update_of, nan_of),
        0 <= c < histories.columns,
        0 <= t <= histories.rows,
    ensures
        states[t].len() == histories.columns,
        states[t][c] == crate::walk::run(
            model_of(initial_of, update_of, nan_of),
            states[0][c],
            Seq::new(t as nat, |u: int| crate::batch::cell(of[c], u)),
        ),
    decreases t,
{
    let model = model_of(initial_of, update_of, nan_of);
    let reviews = Seq::new(t as nat, |u: int| crate::batch::cell(of[c], u));
    if t > 0 {
        law_columns_do_not_affect_each_other(
            update,
            initial,
            nan,
            w,
            histories,
            of,
            states,
            initial_of,
            update_of,
            nan_of,
            c,
            t - 1,
        );
        let u = t - 1;
        let n = histories.columns as int;
        assert(reviews.drop_last() =~= Seq::new(u as nat, |v: int| crate::batch::cell(of[c], v)));
        assert(reviews.last() == crate::batch::cell(of[c], u));
        assert(row_ran(update, initial, nan, w, histories, states, u));
        let intervals = row(histories.intervals@, n, u);
        let ratings = row(histories.ratings@, n, u);
        crate::batch::law_cells_have_places(n, histories.rows as int, u, c);
        assert((u + 1) * n == u * n + n && (u + 1) * n <= histories.rows * n && 0 <= u * n) by (nonlinear_arith)
            requires
                0 <= u < histories.rows,
                0 < n,
        ;
        assert(intervals[c] == crate::batch::cell(of[c], u).delta_t);
        assert(ratings[c] == crate::batch::cell(of[c], u).rating);
        let first = u == 0;
        let (last, updated, begun) = choose|
            last: Seq<MemoryState>,
            updated: Seq<MemoryState>,
            begun: Seq<MemoryState>,
        | #[trigger]
            computed_row(
                update,
                initial,
                nan,
                w,
                intervals,
                ratings,
                first,
                states[u],
                last,
                updated,
                begun,
            ) && all_after(nan, ratings, first, states[u], last, updated, begun, states[u + 1]);
        assert(crate::hold::state_held(nan, states[u][c], last[c]));
        assert(last[c] == crate::hold::state_of(nan_of, states[u][c]));
        assert(updated_row(update, w, intervals, ratings, last, updated));
        assert(updated[c] == update_of(intervals[c], ratings[c], last[c]));
        if u == 0 {
            assert(begun_row(initial, w, ratings, begun));
            assert(begun[c] == initial_of(held_ratings(ratings)[c]));
        }
        assert(after_review(
            nan,
            states[u][c],
            ratings[c],
            first,
            last[c],
            begun[c],
            updated[c],
            states[t][c],
        ));
        assert(states[t][c] == model(states[u][c], reviews.last(), u == 0));
    }
}

/// Whether `update` and `initial` compute the same states from the same rows, and `nan` gives
/// what `nan_of` gives, which holding leaves as it is.
pub open spec fn repeatable<U, I, N>(
    update: U,
    initial: I,
    nan: N,
    w: Seq<Single>,
    nan_of: spec_fn(Single, Single, Single) -> Single,
) -> bool where
    U: Fn(&Vec<Single>, &Vec<Single>, &Vec<u32>, &Vec<MemoryState>) -> Vec<MemoryState>,
    I: Fn(&Vec<Single>, &Vec<u32>) -> Vec<MemoryState>,
    N: Fn(Single, Single, Single) -> Single,
 {
    &&& forall|
        intervals: Seq<Single>,
        ratings: Seq<u32>,
        last: Seq<MemoryState>,
        a: Seq<MemoryState>,
        b: Seq<MemoryState>,
    |
        #![trigger updated_row(update, w, intervals, ratings, last, a), updated_row(update, w, intervals, ratings, last, b)]
        updated_row(update, w, intervals, ratings, last, a) && updated_row(
            update,
            w,
            intervals,
            ratings,
            last,
            b,
        ) ==> a == b
    &&& forall|ratings: Seq<u32>, a: Seq<MemoryState>, b: Seq<MemoryState>|
        #![trigger begun_row(initial, w, ratings, a), begun_row(initial, w, ratings, b)]
        begun_row(initial, w, ratings, a) && begun_row(initial, w, ratings, b) ==> a == b
    &&& crate::hold::settles(nan, nan_of)
}

proof fn lemma_rows_agree<U, I, N>(
    update: U,
    initial: I,
    nan: N,
    w: Seq<Single>,
    nan_of: spec_fn(Single, Single, Single) -> Single,
    intervals: Seq<Single>,
    ratings: Seq<u32>,
    first: bool,
    again: bool,
    states: Seq<MemoryState>,
    next: Seq<MemoryState>,
    other: Seq<MemoryState>,
) where
    U: Fn(&Vec<Single>, &Vec<Single>, &Vec<u32>, &Vec<MemoryState>) -> Vec<MemoryState>,
    I: Fn(&Vec<Single>, &Vec<u32>) -> Vec<MemoryState>,
    N: Fn(Single, Single, Single) -> Single,

    requires
        row_done(update, initial, nan, w, intervals, ratings, first, states, next),
        row_done(update, initial, nan, w, intervals, ratings, again, states, other),
        repeatable(update, initial, nan, w, nan_of),
        first == again || forall|c: int|
            0 <= c < states.len() ==> crate::hold::kept(nan_of, #[trigger] states[c]),
    ensures
        next == other,
        next.len() == states.len(),
        forall|c: int| 0 <= c < next.len() ==> crate::hold::kept(nan_of, #[trigger] next[c]),
{
    let (last, updated, begun) = choose|
        last: Seq<MemoryState>,
        updated: Seq<MemoryState>,
        begun: Seq<MemoryState>,
    | #[trigger]
        computed_row(
            update,
            initial,
            nan,
            w,
            intervals,
            ratings,
            first,
            states,
            last,
            updated,
            begun,
        ) && all_after(nan, ratings, first, states, last, updated, begun, next);
    let (held, grown, started) = choose|
        held: Seq<MemoryState>,
        grown: Seq<MemoryState>,
        started: Seq<MemoryState>,
    | #[trigger]
        computed_row(
            update,
            initial,
            nan,
            w,
            intervals,
            ratings,
            again,
            states,
            held,
            grown,
            started,
        ) && all_after(nan, ratings, again, states, held, grown, started, other);
    assert forall|c: int| 0 <= c < last.len() implies last[c] == held[c] && last[c]
        == crate::hold::state_of(nan_of, states[c]) by {
        assert(crate::hold::state_held(nan, states[c], last[c]));
        assert(crate::hold::state_held(nan, states[c], held[c]));
    }
    assert(last =~= held);
    assert(updated_row(update, w, intervals, ratings, last, updated));
    assert(updated_row(update, w, intervals, ratings, last, grown));
    assert(updated == grown);
    if first && again {
        assert(begun_row(initial, w, ratings, begun));
        assert(begun_row(initial, w, ratings, started));
        assert(begun == started);
    }
    assert forall|c: int| 0 <= c < next.len() implies next[c] == other[c] && crate::hold::kept(
        nan_of,
        #[trigger] next[c],
    ) by {
        assert(after_review(
            nan,
            states[c],
            ratings[c],
            first,
            last[c],
            begun[c],
            updated[c],
            next[c],
        ));
        assert(after_review(
            nan,
            states[c],
            ratings[c],
            again,
            held[c],
            started[c],
            grown[c],
            other[c],
        ));
        if first != again {
            assert(crate::hold::kept(nan_of, states[c]));
            crate::hold::law_kept_states_were_reviewed(nan_of, states[c]);
        }
        crate::hold::law_holding_twice_is_holding_once(nan, nan_of, states[c]);
        crate::hold::law_holding_twice_is_holding_once(nan, nan_of, begun[c]);
        crate::hold::law_holding_twice_is_holding_once(nan, nan_of, updated[c]);
    }
    assert(next =~= other);
}

proof fn lemma_runs_agree<U, I, N>(
    update: U,
    initial: I,
    nan: N,
    w: Seq<Single>,
    nan_of: spec_fn(Single, Single, Single) -> Single,
    histories: Histories,
    states: Seq<Seq<MemoryState>>,
    others: Seq<Seq<MemoryState>>,
    t: int,
) where
    U: Fn(&Vec<Single>, &Vec<Single>, &Vec<u32>, &Vec<MemoryState>) -> Vec<MemoryState>,
    I: Fn(&Vec<Single>, &Vec<u32>) -> Vec<MemoryState>,
    N: Fn(Single, Single, Single) -> Single,

    requires
        ran(update, initial, nan, w, histories, states),
        ran(update, initial, nan, w, histories, others),
        states.len() == others.len(),
        states[0] == others[0],
        repeatable(update, initial, nan, w, nan_of),
        0 <= t < states.len(),
    ensures
        states[t] == others[t],
    decreases t,
{
    if t > 0 {
        lemma_runs_agree(update, initial, nan, w, nan_of, histories, states, others, t - 1);
        assert(row_ran(update, initial, nan, w, histories, states, t - 1));
        assert(row_ran(update, initial, nan, w, histories, others, t - 1));
        crate::forward::lemma_rows_agree(
            update,
            initial,
            nan,
            w,
            nan_of,
            row(histories.intervals@, histories.columns as int, t - 1),
            row(histories.ratings@, histories.columns as int, t - 1),
            t - 1 == 0,
            t - 1 == 0,
            states[t - 1],
            states[t],
            others[t],
        );
    }
}

/// Running a model over histories once more ends in the same states, where the functions
/// passed in compute the same states from the same rows.
pub proof fn law_running_again_gives_the_same<U, I, N>(
    update: U,
    initial: I,
    nan: N,
    w: Seq<Single>,
    nan_of: spec_fn(Single, Single, Single) -> Single,
    histories: Histories,
    start: Seq<MemoryState>,
    end: Seq<MemoryState>,
    again: Seq<MemoryState>,
) where
    U: Fn(&Vec<Single>, &Vec<Single>, &Vec<u32>, &Vec<MemoryState>) -> Vec<MemoryState>,
    I: Fn(&Vec<Single>, &Vec<u32>) -> Vec<MemoryState>,
    N: Fn(Single, Single, Single) -> Single,

    requires
        forwarded(update, initial, nan, w, histories, start, end),
        forwarded(update, initial, nan, w, histories, start, again),
        repeatable(update, initial, nan, w, nan_of),
    ensures
        end == again,
{
    let states = choose|states: Seq<Seq<MemoryState>>| #[trigger]
        ran(update, initial, nan, w, histories, states) && states.len() == histories.rows + 1
            && states[0] == start && end == states.last();
    let others = choose|states: Seq<Seq<MemoryState>>| #[trigger]
        ran(update, initial, nan, w, histories, states) && states.len() == histories.rows + 1
            && states[0] == start && again == states.last();
    lemma_runs_agree(update, initial, nan, w, nan_of, histories, states, others, histories.rows as int);
}

/// Whether `whole` has the rows of `before`, and after them those of `after`.
pub open spec fn joined(before: Histories, after: Histories, whole: Histories) -> bool {
    &&& before.columns == whole.columns
    &&& after.columns == whole.columns
    &&& whole.rows == before.rows + after.rows
    &&& before.intervals@.len() == before.rows * before.columns
    &&& before.ratings@.len() == before.rows * before.columns
    &&& after.intervals@.len() == after.rows * after.columns
    &&& after.ratings@.len() == after.rows * after.columns
    &&& whole.intervals@ == before.intervals@ + after.intervals@
    &&& whole.ratings@ == before.ratings@ + after.ratings@
}

/// Whether there is nothing but padding in histories.
pub open spec fn all_padding(histories: Histories) -> bool {
    histories.ratings@ == Seq::new((histories.rows * histories.columns) as nat, |k: int| 0u32)
}

proof fn lemma_joined_rows<A>(before: Seq<A>, after: Seq<A>, columns: int, rows: int, more: int, t: int)
    requires
        0 <= columns,
        0 <= rows,
        before.len() == rows * columns,
        after.len() == more * columns,
        0 <= t < rows + more,
    ensures
        t < rows ==> row(before + after, columns, t) == row(before, columns, t),
        t >= rows ==> row(before + after, columns, t) == row(after, columns, t - rows),
{
    assert((t + 1) * columns == t * columns + columns) by (nonlinear_arith);
    assert(0 <= t * columns) by (nonlinear_arith)
        requires
            0 <= t,
            0 <= columns,
    ;
    if t < rows {
        assert((t + 1) * columns <= rows * columns) by (nonlinear_arith)
            requires
                t + 1 <= rows,
                0 <= columns,
        ;
        assert(row(before + after, columns, t) =~= row(before, columns, t));
    } else {
        let u = t - rows;
        assert(t * columns == rows * columns + u * columns && (u + 1) * columns == u * columns
            + columns) by (nonlinear_arith)
            requires
                u == t - rows,
        ;
        assert(0 <= u * columns && (u + 1) * columns <= more * columns) by (nonlinear_arith)
            requires
                0 <= u,
                u + 1 <= more,
                0 <= columns,
        ;
        assert(row(before + after, columns, t) =~= row(after, columns, u));
    }
}

/// Running a model over histories and then, from where it ended, over more rows gives what
/// running it over all rows at once gives: after a first row every state stays as it is when
/// it is held again, and no later review is a card's first. Rows of padding at the end
/// change nothing.
pub proof fn law_histories_can_be_joined<U, I, N>(
    update: U,
    initial: I,
    nan: N,
    w: Seq<Single>,
    nan_of: spec_fn(Single, Single, Single) -> Single,
    before: Histories,
    after: Histories,
    whole: Histories,
    start: Seq<MemoryState>,
    middle: Seq<MemoryState>,
    end: Seq<MemoryState>,
    at_once: Seq<MemoryState>,
) where
    U: Fn(&Vec<Single>, &Vec<Single>, &Vec<u32>, &Vec<MemoryState>) -> Vec<MemoryState>,
    I: Fn(&Vec<Single>, &Vec<u32>) -> Vec<MemoryState>,
    N: Fn(Single, Single, Single) -> Single,

    requires
        joined(before, after, whole),
        before.rows > 0,
        start.len() == whole.columns,
        forwarded(update, initial, nan, w, before, start, middle),
        forwarded(update, initial, nan, w, after, middle, end),
        forwarded(update, initial, nan, w, whole, start, at_once),
        repeatable(update, initial, nan, w, nan_of),
    ensures
        at_once == end,
        all_padding(after) ==> at_once == middle,
{
    let early = choose|states: Seq<Seq<MemoryState>>| #[trigger]
        ran(update, initial, nan, w, before, states) && states.len() == before.rows + 1 && states[0]
            == start && middle == states.last();
    let late = choose|states: Seq<Seq<MemoryState>>| #[trigger]
        ran(update, initial, nan, w, after, states) && states.len() == after.rows + 1 && states[0]
            == middle && end == states.last();
    let states = choose|states: Seq<Seq<MemoryState>>| #[trigger]
        ran(update, initial, nan, w, whole, states) && states.len() == whole.rows + 1 && states[0]
            == start && at_once == states.last();
    crate::forward::lemma_joined_until(
        update,
        initial,
        nan,
        w,
        nan_of,
        before,
        after,
        whole,
        early,
        late,
        states,
        whole.rows as int,
    );
    if all_padding(after) {
        crate::forward::lemma_joined_until(
            update,
            initial,
            nan,
            w,
            nan_of,
            before,
            after,
            whole,
            early,
            late,
            states,
            before.rows as int,
        );
        crate::forward::lemma_columns_kept(update, initial, nan, w, before, early, before.rows as int);
        crate::forward::lemma_padding_keeps(update, initial, nan, w, nan_of, after, late, after.rows as int);
    }
}

proof fn lemma_columns_kept<U, I, N>(
    update: U,
    initial: I,
    nan: N,
    w: Seq<Single>,
    histories: Histories,
    states: Seq<Seq<MemoryState>>,
    t: int,
) where
    U: Fn(&Vec<Single>, &Vec<Single>, &Vec<u32>, &Vec<MemoryState>) -> Vec<MemoryState>,
    I: Fn(&Vec<Single>, &Vec<u32>) -> Vec<MemoryState>,
    N: Fn(Single, Single, Single) -> Single,

    requires
        ran(update, initial, nan, w, histories, states),
        0 <= t < states.len(),
    ensures
        states[t].len() == states[0].len(),
    decreases t,
{
    if t > 0 {
        crate::forward::lemma_columns_kept(update, initial, nan, w, histories, states, t - 1);
        assert(row_ran(update, initial, nan, w, histories, states, t - 1));
    }
}

proof fn lemma_joined_until<U, I, N>(
    update: U,
    initial: I,
    nan: N,
    w: Seq<Single>,
    nan_of: spec_fn(Single, Single, Single) -> Single,
    before: Histories,
    after: Histories,
    whole: Histories,
    early: Seq<Seq<MemoryState>>,
    late: Seq<Seq<MemoryState>>,
    states: Seq<Seq<MemoryState>>,
    t: int,
) where
    U: Fn(&Vec<Single>, &Vec<Single>, &Vec<u32>, &Vec<MemoryState>) -> Vec<MemoryState>,
    I: Fn(&Vec<Single>, &Vec<u32>) -> Vec<MemoryState>,
    N: Fn(Single, Single, Single) -> Single,

    requires
        joined(before, after, whole),
        before.rows > 0,
        ran(update, initial, nan, w, before, early),
        ran(update, initial, nan, w, after, late),
        ran(update, initial, nan, w, whole, states),
        early.len() == before.rows + 1,
        late.len() == after.rows + 1,
        states.len() == whole.rows + 1,
        early[0] == states[0],
        late[0] == early.last(),
        repeatable(update, initial, nan, w, nan_of),
        0 <= t <= whole.rows,
    ensures
        t <= before.rows ==> states[t] == early[t],
        t >= before.rows ==> states[t] == late[t - before.rows],
        t > 0 ==> forall|c: int|
            0 <= c < states[t].len() ==> crate::hold::kept(nan_of, #[trigger] states[t][c]),
    decreases t,
{
    if t > 0 {
        let u = t - 1;
        crate::forward::lemma_joined_until(
            update,
            initial,
            nan,
            w,
            nan_of,
            before,
            after,
            whole,
            early,
            late,
            states,
            u,
        );
        let n = whole.columns as int;
        let intervals = row(whole.intervals@, n, u);
        let ratings = row(whole.ratings@, n, u);
        crate::forward::lemma_joined_rows(
            before.intervals@,
            after.intervals@,
            n,
            before.rows as int,
            after.rows as int,
            u,
        );
        crate::forward::lemma_joined_rows(
            before.ratings@,
            after.ratings@,
            n,
            before.rows as int,
            after.rows as int,
            u,
        );
        assert(row_ran(update, initial, nan, w, whole, states, u));
        if t <= before.rows {
            assert(row_ran(update, initial, nan, w, before, early, u));
            crate::forward::lemma_rows_agree(
                update,
                initial,
                nan,
                w,
                nan_of,
                intervals,
                ratings,
                u == 0,
                u == 0,
                states[u],
                states[t],
                early[t],
            );
        } else {
            let v = u - before.rows;
            assert(row_ran(update, initial, nan, w, after, late, v));
            crate::forward::lemma_rows_agree(
                update,
                initial,
                nan,
                w,
                nan_of,
                intervals,
                ratings,
                u == 0,
                v == 0,
                states[u],
                states[t],
                late[v + 1],
            );
        }
    }
}

/// Rows of padding leave states as they are that stay as they are when they are held.
pub proof fn law_rows_of_padding_keep_the_states<U, I, N>(
    update: U,
    initial: I,
    nan: N,
    w: Seq<Single>,
    nan_of: spec_fn(Single, Single, Single) -> Single,
    padding: Histories,
    start: Seq<MemoryState>,
    end: Seq<MemoryState>,
) where
    U: Fn(&Vec<Single>, &Vec<Single>, &Vec<u32>, &Vec<MemoryState>) -> Vec<MemoryState>,
    I: Fn(&Vec<Single>, &Vec<u32>) -> Vec<MemoryState>,
    N: Fn(Single, Single, Single) -> Single,

    requires
        all_padding(padding),
        crate::hold::settles(nan, nan_of),
        forwarded(update, initial, nan, w, padding, start, end),
        start.len() == padding.columns,
        forall|c: int| 0 <= c < start.len() ==> crate::hold::kept(nan_of, #[trigger] start[c]),
    ensures
        end == start,
{
    let states = choose|states: Seq<Seq<MemoryState>>| #[trigger]
        ran(update, initial, nan, w, padding, states) && states.len() == padding.rows + 1 && states[0]
            == start && end == states.last();
    crate::forward::lemma_padding_keeps(update, initial, nan, w, nan_of, padding, states, padding.rows as int);
}

proof fn lemma_padding_keeps<U, I, N>(
    update: U,
    initial: I,
    nan: N,
    w: Seq<Single>,
    nan_of: spec_fn(Single, Single, Single) -> Single,
    padding: Histories,
    states: Seq<Seq<MemoryState>>,
    t: int,
) where
    U: Fn(&Vec<Single>, &Vec<Single>, &Vec<u32>, &Vec<MemoryState>) -> Vec<MemoryState>,
    I: Fn(&Vec<Single>, &Vec<u32>) -> Vec<MemoryState>,
    N: Fn(Single, Single, Single) -> Single,

    requires
        all_padding(padding),
        crate::hold::settles(nan, nan_of),
        ran(update, initial, nan, w, padding, states),
        states.len() == padding.rows + 1,
        states[0].len() == padding.columns,
        forall|c: int|
            0 <= c < states[0].len() ==> crate::hold::kept(nan_of, #[trigger] states[0][c]),
        0 <= t <= padding.rows,
    ensures
        states[t] == states[0],
    decreases t,
{
    if t > 0 {
        crate::forward::lemma_padding_keeps(update, initial, nan, w, nan_of, padding, states, t - 1);
        let u = t - 1;
        let first = u == 0;
        let n = padding.columns as int;
        let intervals = row(padding.intervals@, n, u);
        let ratings = row(padding.ratings@, n, u);
        assert(0 <= u * n && (u + 1) * n == u * n + n && (u + 1) * n <= padding.rows * n)
            by (nonlinear_arith)
            requires
                0 <= u,
                u + 1 <= padding.rows,
                0 <= n,
        ;
        assert(row_ran(update, initial, nan, w, padding, states, u));
        let (last, updated, begun) = choose|
            last: Seq<MemoryState>,
            updated: Seq<MemoryState>,
            begun: Seq<MemoryState>,
        | #[trigger]
            computed_row(
                update,
                initial,
                nan,
                w,
                intervals,
                ratings,
                first,
                states[u],
                last,
                updated,
                begun,
            ) && all_after(nan, ratings, first, states[u], last, updated, begun, states[u + 1]);
        assert forall|c: int| 0 <= c < states[t].len() implies states[t][c] == states[0][c] by {
            assert(ratings[c] == 0);
            assert(crate::hold::kept(nan_of, states[0][c]));
            assert(crate::hold::state_held(nan, states[u][c], last[c]));
            assert(last[c] == states[0][c]);
            assert(after_review(
                nan,
                states[u][c],
                ratings[c],
                first,
                last[c],
                begun[c],
                updated[c],
                states[t][c],
            ));
        }
        assert(states[t] =~= states[0]);
    }
}

/// What a review makes of a state, where all parts are numbers: padding leaves the state
/// before, held in range; the first review of a card with stability 0 gives what its rating
/// gives; and any other review gives what was computed from the state before. The last two
/// are held in range.
pub proof fn law_what_a_review_makes_of_a_state<N: Fn(Single, Single, Single) -> Single>(
    nan: N,
    state: MemoryState,
    rating: u32,
    first: bool,
    last: MemoryState,
    begun: MemoryState,
    updated: MemoryState,
    next: MemoryState,
)
    requires
        crate::hold::state_held(nan, state, last),
        after_review(nan, state, rating, first, last, begun, updated, next),
        !state.has_nan(),
        !begun.has_nan(),
        !updated.has_nan(),
    ensures
        crate::step::within(next),
        last == crate::step::bounded(state),
        rating == 0 ==> next == crate::step::bounded(state),
        rating != 0 && first && state.stability.value() == 0 ==> next == crate::step::bounded(begun),
        rating != 0 && !(first && state.stability.value() == 0) ==> next == crate::step::bounded(
            updated,
        ),
        rating == 0 && crate::step::within(state) ==> next == state,
{
    crate::single::lemma_zero();
    crate::hold::law_held_states_are_in_range(nan, state, last);
    crate::step::law_states_stay_in_range(state);
    crate::step::law_states_stay_in_range(begun);
    crate::step::law_states_stay_in_range(updated);
    crate::step::law_padding_keeps_the_state(crate::step::bounded(state));
    if crate::step::within(state) {
        crate::step::law_padding_keeps_the_state(state);
    }
}

/// Row `t` of a matrix begins in place `t * columns` and has a cell for each column.
pub proof fn law_rows_have_their_cells<A>(cells: Seq<A>, columns: int, rows: int, t: int, c: int)
    requires
        cells.len() == rows * columns,
        0 <= t < rows,
        0 <= c < columns,
    ensures
        row(cells, columns, t).len() == columns,
        row(cells, columns, t)[c] == cells[t * columns + c],
{
    crate::batch::law_cells_have_places(columns, rows, t, c);
    assert((t + 1) * columns == t * columns + columns && (t + 1) * columns <= rows * columns && 0 <= t
        * columns) by (nonlinear_arith)
        requires
            0 <= t < rows,
            0 < columns,
    ;
}

/// What is computed for a row is computed from the parameters, from the intervals and
/// ratings of that row as they are, and from the states before, held in range; first states
/// from ratings that are held between 1 and 4.
pub proof fn law_rows_are_computed_from_what_they_hold<U, I, N>(
    update: U,
    initial: I,
    nan: N,
    w: Seq<Single>,
    histories: Histories,
    states: Seq<Seq<MemoryState>>,
    t: int,
) where
    U: Fn(&Vec<Single>, &Vec<Single>, &Vec<u32>, &Vec<MemoryState>) -> Vec<MemoryState>,
    I: Fn(&Vec<Single>, &Vec<u32>) -> Vec<MemoryState>,
    N: Fn(Single, Single, Single) -> Single,

    requires
        ran(update, initial, nan, w, histories, states),
        0 <= t < states.len() - 1,
    ensures
        states[t + 1].len() == states[t].len(),
        exists|
            p: &Vec<Single>,
            i: &Vec<Single>,
            r: &Vec<u32>,
            last: &Vec<MemoryState>,
            updated: Vec<MemoryState>,
        | #[trigger]
            call_ensures(update, (p, i, r, last), updated) && p@ == w && i@
                == histories.intervals@.subrange(
                t * histories.columns,
                (t + 1) * histories.columns,
            ) && r@ == histories.ratings@.subrange(
                t * histories.columns,
                (t + 1) * histories.columns,
            ) && last@.len() == states[t].len() && forall|c: int|
                0 <= c < states[t].len() ==> crate::hold::state_held(
                    nan,
                    states[t][c],
                    #[trigger] last@[c],
                ),
        t == 0 ==> exists|p: &Vec<Single>, r: &Vec<u32>, begun: Vec<MemoryState>| #[trigger]
            call_ensures(initial, (p, r), begun) && p@ == w && r@.len()
                == histories.ratings@.subrange(0, histories.columns as int).len() && forall|c: int|
                0 <= c < r@.len() ==> 1 <= #[trigger] r@[c] <= 4 && (1 <= histories.ratings@.subrange(
                    0,
                    histories.columns as int,
                )[c] <= 4 ==> r@[c] == histories.ratings@.subrange(0, histories.columns as int)[c]),
{
    assert(row_ran(update, initial, nan, w, histories, states, t));
    let intervals = row(histories.intervals@, histories.columns as int, t);
    let ratings = row(histories.ratings@, histories.columns as int, t);
    let first = t == 0;
    let (last, updated, begun) = choose|
        last: Seq<MemoryState>,
        updated: Seq<MemoryState>,
        begun: Seq<MemoryState>,
    | #[trigger]
        computed_row(
            update,
            initial,
            nan,
            w,
            intervals,
            ratings,
            first,
            states[t],
            last,
            updated,
            begun,
        ) && all_after(nan, ratings, first, states[t], last, updated, begun, states[t + 1]);
    assert(updated_row(update, w, intervals, ratings, last, updated));
    let (p, i, r, l, out) = choose|
        p: &Vec<Single>,
        i: &Vec<Single>,
        r: &Vec<u32>,
        l: &Vec<MemoryState>,
        out: Vec<MemoryState>,
    | #[trigger]
        call_ensures(update, (p, i, r, l), out) && p@ == w && i@ == intervals && r@ == ratings
            && l@ == last && out@ == updated;
    assert(call_ensures(update, (p, i, r, l), out));
    assert forall|c: int| 0 <= c < states[t].len() implies crate::hold::state_held(
        nan,
        states[t][c],
        #[trigger] l@[c],
    ) by {
        assert(crate::hold::state_held(nan, states[t][c], last[c]));
    }
    if t == 0 {
        assert(begun_row(initial, w, ratings, begun));
        let (p, r, out) = choose|p: &Vec<Single>, r: &Vec<u32>, out: Vec<MemoryState>| #[trigger]
            call_ensures(initial, (p, r), out) && p@ == w && r@ == held_ratings(ratings) && out@
                == begun;
        assert(call_ensures(initial, (p, r), out));
        assert(0 * histories.columns == 0 && (0 + 1) * histories.columns == histories.columns);
    }
}

/// A model starts from the states that are given, and from nothing but zeros, one for each
/// column, where none are.
pub proof fn law_what_a_model_starts_from(starting_state: Option<Vec<MemoryState>>, n: nat, c: int)
    requires
        0 <= c < n,
    ensures
        starting_state matches Some(state) ==> begins_with(starting_state, n) == state@,
        starting_state is None ==> begins_with(starting_state, n).len() == n && begins_with(
            starting_state,
            n,
        )[c].stability.bits == 0 && begins_with(starting_state, n)[c].difficulty.bits == 0
            && begins_with(starting_state, n)[c].stability_fast.bits == 0,
{
}

} // verus!
