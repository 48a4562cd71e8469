//! Walking the reviews of a column, forward and back.
//!
//! A column is walked forward from its first review to its last, which gives the states
//! between them, and back from the last to the first, which gives the gradients of those
//! states. The columns of a batch are walked one by one, or eight at a time.

use crate::review::FSRSReview;
use crate::single::Single;
use vstd::prelude::*;

verus! {

/// Whether `step` may be called on the review in row `t` of a column.
pub open spec fn may_step<S, F: Fn(&S, usize, bool) -> S>(
    step: F,
    state: S,
    columns: nat,
    column: nat,
    t: int,
) -> bool {
    call_requires(step, (&state, (t * columns + column) as usize, t == 0))
}

/// Whether `step` may give state `t + 1` of `states`: it gets the state before, the place
/// of the review, and whether it is the first.
pub open spec fn stepped<S, F: Fn(&S, usize, bool) -> S>(
    states: Seq<S>,
    step: F,
    columns: nat,
    column: nat,
    t: int,
) -> bool {
    call_ensures(
        step,
        (&states[t], (t * columns + column) as usize, t == 0),
        states[t + 1],
    )
}

/// Whether `states` are states that walking a column forward may give.
pub open spec fn walked<S, F: Fn(&S, usize, bool) -> S>(
    states: Seq<S>,
    step: F,
    start: S,
    rows: nat,
    columns: nat,
    column: nat,
) -> bool {
    &&& states.len() == rows + 1
    &&& states[0] == start
    &&& forall|t: int|
        0 <= t < rows ==> #[trigger] stepped(states, step, columns, column, t)
}

/// Walks column `column` of `columns` forward and gives the states: the one to start
/// from, and the one after each of `rows` reviews.
pub fn walk<S, F: Fn(&S, usize, bool) -> S>(
    step: &F,
    start: S,
    rows: usize,
    columns: usize,
    column: usize,
) -> (r: Vec<S>)
    requires
        column < columns,
        rows * columns <= usize::MAX,
        forall|state: S, t: int|
            0 <= t < rows ==> #[trigger] may_step(*step, state, columns as nat, column as nat, t),
    ensures
        walked(r@, *step, start, rows as nat, columns as nat, column as nat),
{
    let mut states: Vec<S> = Vec::new();
    states.push(start);
    let mut t: usize = 0;
    let mut place: usize = column;
    proof {
        assert(0 * columns == 0);
    }
    while t < rows
        invariant
            t <= rows,
            column < columns,
            rows * columns <= usize::MAX,
            t < rows ==> place == t * columns + column,
            forall|state: S, t: int|
                0 <= t < rows ==> #[trigger] may_step(*step, state, columns as nat, column as nat, t),
            states@.len() == t + 1,
            states@[0] == start,
            forall|u: int|
                0 <= u < t ==> #[trigger] stepped(
                    states@,
                    *step,
                    columns as nat,
                    column as nat,
                    u,
                ),
        decreases rows - t,
    {
        proof {
            crate::batch::law_cells_have_places(columns as int, rows as int, t as int, column as int);
            assert(may_step(*step, states@[t as int], columns as nat, column as nat, t as int));
        }
        let ghost before = states@;
        let next = step(&states[t], place, t == 0);
        states.push(next);
        proof {
            assert forall|u: int| 0 <= u < t + 1 implies #[trigger] stepped(
                states@,
                *step,
                columns as nat,
                column as nat,
                u,
            ) by {
                assert(states@[u] == before[u]);
                if u < t {
                    assert(stepped(before, *step, columns as nat, column as nat, u));
                    assert(states@[u + 1] == before[u + 1]);
                }
            }
            if t + 1 < rows {
                crate::batch::law_cells_have_places(
                    columns as int,
                    rows as int,
                    t + 1,
                    column as int,
                );
                assert((t + 1) * columns == t * columns + columns) by (nonlinear_arith);
            }
        }
        t += 1;
        if t < rows {
            place += columns;
        }
    }
    states
}

/// Whether `back` may be called on the review in row `t` of a column.
pub open spec fn may_step_back<S, G, F: Fn(G, &S, usize, bool) -> G>(
    back: F,
    gradient: G,
    state: S,
    columns: nat,
    column: nat,
    t: int,
) -> bool {
    call_requires(back, (gradient, &state, (t * columns + column) as usize, t == 0))
}

/// Whether `back` may give gradient `t` of `gradients`: it gets the gradient of the state
/// after review `t`, that state, the place of the review, and whether it is the first.
pub open spec fn stepped_back<S, G, F: Fn(G, &S, usize, bool) -> G>(
    gradients: Seq<G>,
    back: F,
    states: Seq<S>,
    columns: nat,
    column: nat,
    t: int,
) -> bool {
    call_ensures(
        back,
        (gradients[t + 1], &states[t + 1], (t * columns + column) as usize, t == 0),
        gradients[t],
    )
}

/// Whether `gradients` are gradients that walking a column back may give.
pub open spec fn walked_back<S, G, F: Fn(G, &S, usize, bool) -> G>(
    gradients: Seq<G>,
    back: F,
    states: Seq<S>,
    end: G,
    columns: nat,
    column: nat,
) -> bool {
    &&& gradients.len() == states.len()
    &&& gradients.last() == end
    &&& forall|t: int|
        0 <= t < states.len() - 1 ==> #[trigger] stepped_back(
            gradients,
            back,
            states,
            columns,
            column,
            t,
        )
}

/// Walks column `column` of `columns` back along the states that walking it forward gave,
/// from the gradient of the last state, and gives the gradient of the first.
pub fn walk_back<S, G, F: Fn(G, &S, usize, bool) -> G>(
    back: &F,
    states: &Vec<S>,
    end: G,
    columns: usize,
    column: usize,
) -> (r: G)
    requires
        states@.len() > 0,
        column < columns,
        (states@.len() - 1) * columns <= usize::MAX,
        forall|gradient: G, state: S, t: int|
            0 <= t < states@.len() - 1 ==> #[trigger] may_step_back(
                *back,
                gradient,
                state,
                columns as nat,
                column as nat,
                t,
            ),
    ensures
        exists|gradients: Seq<G>| #[trigger]
            walked_back(gradients, *back, states@, end, columns as nat, column as nat)
                && gradients[0] == r,
{
    let mut gradient = end;
    let mut t: usize = states.len() - 1;
    let ghost mut gradients = Seq::new(states@.len(), |u: int| end);
    while t > 0
        invariant
            t < states@.len(),
            column < columns,
            (states@.len() - 1) * columns <= usize::MAX,
            forall|gradient: G, state: S, t: int|
                0 <= t < states@.len() - 1 ==> #[trigger] may_step_back(
                    *back,
                    gradient,
                    state,
                    columns as nat,
                    column as nat,
                    t,
                ),
            gradients.len() == states@.len(),
            gradients[t as int] == gradient,
            gradients.last() == end,
            forall|u: int|
                t <= u < states@.len() - 1 ==> #[trigger] stepped_back(
                    gradients,
                    *back,
                    states@,
                    columns as nat,
                    column as nat,
                    u,
                ),
        decreases t,
    {
        let ghost before = gradients;
        proof {
            crate::batch::law_cells_have_places(
                columns as int,
                states@.len() - 1,
                t - 1,
                column as int,
            );
            assert(may_step_back(
                *back,
                gradient,
                states@[t as int],
                columns as nat,
                column as nat,
                t - 1,
            ));
        }
        gradient = back(gradient, &states[t], (t - 1) * columns + column, t == 1);
        t -= 1;
        proof {
            gradients = before.update(t as int, gradient);
            assert forall|u: int| t <= u < states@.len() - 1 implies #[trigger] stepped_back(
                gradients,
                *back,
                states@,
                columns as nat,
                column as nat,
                u,
            ) by {
                if u > t {
                    assert(stepped_back(before, *back, states@, columns as nat, column as nat, u));
                }
            }
        }
    }
    assert(walked_back(gradients, *back, states@, end, columns as nat, column as nat));
    gradient
}

/// How the columns of a batch are walked: in groups of eight, and one by one where fewer
/// than eight are left.
#[derive(Clone, Copy, Debug, PartialEq, Eq, Structural)]
pub struct Lanes {
    /// The number of groups of eight.
    pub groups: usize,
    /// The first column that is walked by itself.
    pub rest: usize,
}

/// Splits the columns of a batch into groups of eight and a rest.
pub fn lanes_of(batch: usize) -> (r: Lanes)
    ensures
        r.groups == batch / 8,
        r.rest == r.groups * 8,
        r.rest <= batch < r.rest + 8,
{
    let groups: usize = batch / 8;
    Lanes { groups, rest: groups * 8 }
}

/// The number of columns from which a batch is split in two.
pub const THREAD_MIN: usize = 64;

/// Where a batch is split in two to be walked on two threads; a small one is not.
pub fn split_of(batch: usize) -> (r: Option<usize>)
    ensures
        r is None <==> batch < 64,
        r matches Some(middle) ==> middle == batch / 2 && 0 < middle < batch,
{
    if batch < THREAD_MIN {
        None
    } else {
        Some(batch / 2)
    }
}

/// The state after reviews, where `step` makes a state of a state and a review, and is
/// told whether it is the first.
pub open spec fn run<S>(
    step: spec_fn(S, FSRSReview, bool) -> S,
    start: S,
    reviews: Seq<FSRSReview>,
) -> S
    decreases reviews.len(),
{
    if reviews.len() == 0 {
        start
    } else {
        step(run(step, start, reviews.drop_last()), reviews.last(), reviews.len() == 1)
    }
}

/// What is made of an item: of the state after its history, and its current review.
pub open spec fn scored<S, R>(
    step: spec_fn(S, FSRSReview, bool) -> S,
    score: spec_fn(S, FSRSReview) -> R,
    start: S,
    item: Seq<FSRSReview>,
) -> R {
    score(run(step, start, item.drop_last()), item.last())
}

/// What is made of the reviews of a card but the first, in a single walk: of the state
/// before each review, and the review.
pub open spec fn scored_in_one_walk<S, R>(
    score: spec_fn(S, FSRSReview) -> R,
    states: Seq<S>,
    card: Seq<FSRSReview>,
) -> Seq<R> {
    Seq::new((card.len() - 1) as nat, |j: int| score(states[j + 1], card[j + 1]))
}

/// The states between the reviews of a card in a single walk.
pub open spec fn states_of<S>(
    step: spec_fn(S, FSRSReview, bool) -> S,
    start: S,
    card: Seq<FSRSReview>,
) -> Seq<S> {
    Seq::new(card.len() + 1, |t: int| run(step, start, card.take(t)))
}

/// One walk over the full reviews of a card scores each of its reviews as the item that
/// ends in that review is scored by itself: the losses of a card in one walk are the
/// losses of its items, whatever the model is.
pub proof fn law_one_walk_scores_every_item<S, R>(
    step: spec_fn(S, FSRSReview, bool) -> S,
    score: spec_fn(S, FSRSReview) -> R,
    start: S,
    card: Seq<FSRSReview>,
)
    requires
        card.len() >= 1,
    ensures
        scored_in_one_walk(score, states_of(step, start, card), card) == Seq::new(
            (card.len() - 1) as nat,
            |j: int| scored(step, score, start, card.take(j + 2)),
        ),
        forall|t: int|
            0 <= t < card.len() ==> (#[trigger] states_of(step, start, card)[t + 1]) == step(
                states_of(step, start, card)[t],
                card[t],
                t == 0,
            ),
{
    let walk = scored_in_one_walk(score, states_of(step, start, card), card);
    let items = Seq::new(
        (card.len() - 1) as nat,
        |j: int| scored(step, score, start, card.take(j + 2)),
    );
    assert forall|j: int| 0 <= j < walk.len() implies walk[j] == items[j] by {
        assert(card.take(j + 2).drop_last() =~= card.take(j + 1));
        assert(card.take(j + 2).last() == card[j + 1]);
    }
    assert(walk =~= items);
    assert forall|t: int| 0 <= t < card.len() implies (#[trigger] states_of(step, start, card)[t + 1])
        == step(states_of(step, start, card)[t], card[t], t == 0) by {
        assert(card.take(t + 1).drop_last() =~= card.take(t));
        assert(card.take(t + 1).last() == card[t]);
    }
}

/// Walking a column forward gives the states of the model, where each step follows it in
/// the `part` of the state that holds the column. A state may hold one column, and `part`
/// is all of it; or eight, and `part` is one of its lanes: walking eight columns at a time
/// gives what walking each by itself gives.
pub proof fn law_walks_follow_the_model<N, S, F: Fn(&N, usize, bool) -> N>(
    states: Seq<N>,
    step: F,
    start: N,
    columns: nat,
    column: nat,
    part: spec_fn(N) -> S,
    model: spec_fn(S, FSRSReview, bool) -> S,
    reviews: Seq<FSRSReview>,
)
    requires
        walked(states, step, start, reviews.len(), columns, column),
        forall|ns: Seq<N>, t: int|
            0 <= t < reviews.len() && #[trigger] stepped(ns, step, columns, column, t) ==> part(
                ns[t + 1],
            ) == model(part(ns[t]), reviews[t], t == 0),
    ensures
        states.map_values(part) == states_of(model, part(start), reviews),
{
    let all = states_of(model, part(start), reviews);
    assert forall|t: int| 0 <= t < states.len() implies part(states[t]) == all[t] by {
        lemma_walk_follows(states, step, start, columns, column, part, model, reviews, t);
    }
    assert(states.map_values(part) =~= all);
}

proof fn lemma_walk_follows<N, S, F: Fn(&N, usize, bool) -> N>(
    states: Seq<N>,
    step: F,
    start: N,
    columns: nat,
    column: nat,
    part: spec_fn(N) -> S,
    model: spec_fn(S, FSRSReview, bool) -> S,
    reviews: Seq<FSRSReview>,
    t: int,
)
    requires
        0 <= t <= reviews.len(),
        walked(states, step, start, reviews.len(), columns, column),
        forall|ns: Seq<N>, t: int|
            0 <= t < reviews.len() && #[trigger] stepped(ns, step, columns, column, t) ==> part(
                ns[t + 1],
            ) == model(part(ns[t]), reviews[t], t == 0),
    ensures
        part(states[t]) == run(model, part(start), reviews.take(t)),
    decreases t,
{
    if t > 0 {
        lemma_walk_follows(states, step, start, columns, column, part, model, reviews, t - 1);
        assert(stepped(states, step, columns, column, t - 1));
        assert(reviews.take(t).drop_last() =~= reviews.take(t - 1));
        assert(reviews.take(t).last() == reviews[t - 1]);
    }
}

/// Walking a column that is padded past the end of its reviews ends in the state in which
/// walking the reviews alone ends, where padding keeps the states that reviews give.
pub proof fn law_padding_does_not_change_the_end<S>(
    step: spec_fn(S, FSRSReview, bool) -> S,
    start: S,
    history: Seq<FSRSReview>,
    rows: int,
)
    requires
        1 <= history.len() <= rows,
        forall|state: S, review: FSRSReview, first: bool| #[trigger]
            step(
                step(state, review, first),
                FSRSReview { rating: 0, delta_t: Single::zero() },
                false,
            ) == step(state, review, first),
    ensures
        run(step, start, Seq::new(rows as nat, |t: int| crate::batch::cell(history, t))) == run(
            step,
            start,
            history,
        ),
    decreases rows,
{
    let column = Seq::new(rows as nat, |t: int| crate::batch::cell(history, t));
    if rows == history.len() {
        assert(column =~= history);
    } else {
        law_padding_does_not_change_the_end(step, start, history, rows - 1);
        let shorter = Seq::new((rows - 1) as nat, |t: int| crate::batch::cell(history, t));
        assert(column.drop_last() =~= shorter);
        assert(column.last() == (FSRSReview { rating: 0, delta_t: Single::zero() }));
        let h = history.drop_last();
        assert(run(step, start, history) == step(run(step, start, h), history.last(), history.len() == 1));
    }
}

/// A walk takes each row of its column in turn: row `t` is in place `t * columns + column`,
/// it goes on from the state after the row before, and only row 0 is the first.
pub proof fn law_walks_take_each_row_in_turn<S, F: Fn(&S, usize, bool) -> S>(
    states: Seq<S>,
    step: F,
    start: S,
    rows: nat,
    columns: nat,
    column: nat,
)
    requires
        walked(states, step, start, rows, columns, column),
    ensures
        states.len() == rows + 1,
        states[0] == start,
        forall|t: int|
            #![trigger states[t]]
            0 <= t < rows ==> call_ensures(
                step,
                (&states[t], (t * columns + column) as usize, t == 0),
                states[t + 1],
            ),
{
    assert forall|t: int|
        #![trigger states[t]]
        0 <= t < rows implies call_ensures(
        step,
        (&states[t], (t * columns + column) as usize, t == 0),
        states[t + 1],
    ) by {
        assert(stepped(states, step, columns, column, t));
    }
}

/// A walk back takes each row in turn, the last one first: it gets the gradient that the row
/// after it gave, and the state that its own row led to.
pub proof fn law_walks_back_take_each_row_in_turn<S, G, F: Fn(G, &S, usize, bool) -> G>(
    gradients: Seq<G>,
    back: F,
    states: Seq<S>,
    end: G,
    columns: nat,
    column: nat,
)
    requires
        walked_back(gradients, back, states, end, columns, column),
        states.len() > 0,
    ensures
        gradients.len() == states.len(),
        gradients[states.len() - 1] == end,
        forall|t: int|
            #![trigger gradients[t]]
            0 <= t < states.len() - 1 ==> call_ensures(
                back,
                (
                    gradients[t + 1],
                    &states[t + 1],
                    (t * columns + column) as usize,
                    t == 0,
                ),
                gradients[t],
            ),
{
    assert forall|t: int|
        #![trigger gradients[t]]
        0 <= t < states.len() - 1 implies call_ensures(
        back,
        (gradients[t + 1], &states[t + 1], (t * columns + column) as usize, t == 0),
        gradients[t],
    ) by {
        assert(stepped_back(gradients, back, states, columns, column, t));
    }
}

/// A model is run over reviews one after the other: with one more review it goes on from
/// where it was, and only the very first review is taken to be a first one.
pub proof fn law_models_run_review_by_review<S>(
    step: spec_fn(S, FSRSReview, bool) -> S,
    start: S,
    reviews: Seq<FSRSReview>,
    review: FSRSReview,
)
    ensures
        run(step, start, Seq::empty()) == start,
        run(step, start, seq![review]) == step(start, review, true),
        reviews.len() > 0 ==> run(step, start, reviews.push(review)) == step(
            run(step, start, reviews),
            review,
            false,
        ),
{
    assert(seq![review].drop_last() =~= Seq::<FSRSReview>::empty());
    assert(run(step, start, seq![review].drop_last()) == start);
    assert(reviews.push(review).drop_last() =~= reviews);
}

} // verus!
