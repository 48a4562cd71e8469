//! The loss of a batch, and its gradient: which columns are walked, which reviews are
//! scored, and in which order their losses and gradients are added up.
//!
//! What a step computes, what a prediction costs and how numbers are added is passed in.

use crate::single::Single;
use crate::step::is_scored;
use crate::walk::{lanes_of, split_of, walk, walk_back};
use vstd::prelude::*;

verus! {

/// Whether adding term `i` of `terms` may give total `i + 1` of `totals`.
pub open spec fn plus_one<A, T, P: Fn(A, T) -> A>(
    plus: P,
    terms: Seq<T>,
    totals: Seq<A>,
    i: int,
) -> bool {
    call_ensures(plus, (totals[i], terms[i]), totals[i + 1])
}

/// Whether `totals` may be the totals on the way when `terms` are added up one by one,
/// beginning with `zero`.
pub open spec fn running<A, T, P: Fn(A, T) -> A>(
    plus: P,
    zero: A,
    terms: Seq<T>,
    totals: Seq<A>,
) -> bool {
    &&& totals.len() == terms.len() + 1
    &&& totals[0] == zero
    &&& forall|i: int| 0 <= i < terms.len() ==> #[trigger] plus_one(plus, terms, totals, i)
}

/// Whether adding up `terms` one by one, beginning with `zero`, may give `sum`.
pub open spec fn summed<A, T, P: Fn(A, T) -> A>(plus: P, zero: A, terms: Seq<T>, sum: A) -> bool {
    exists|totals: Seq<A>| #[trigger]
        running(plus, zero, terms, totals) && totals.last() == sum
}

/// The sum of nothing.
pub proof fn lemma_no_terms<A, T, P: Fn(A, T) -> A>(plus: P, zero: A)
    ensures
        summed(plus, zero, Seq::<T>::empty(), zero),
{
    assert(running(plus, zero, Seq::<T>::empty(), seq![zero]));
}

/// Adding one more term.
pub proof fn lemma_one_more<A, T, P: Fn(A, T) -> A>(
    plus: P,
    zero: A,
    terms: Seq<T>,
    before: A,
    term: T,
    sum: A,
)
    requires
        summed(plus, zero, terms, before),
        call_ensures(plus, (before, term), sum),
    ensures
        summed(plus, zero, terms.push(term), sum),
{
    let totals = choose|totals: Seq<A>| #[trigger]
        running(plus, zero, terms, totals) && totals.last() == before;
    let more = totals.push(sum);
    assert forall|i: int| 0 <= i < terms.push(term).len() implies #[trigger] plus_one(
        plus,
        terms.push(term),
        more,
        i,
    ) by {
        assert(more[i] == totals[i]);
        if i < terms.len() {
            assert(plus_one(plus, terms, totals, i));
            assert(more[i + 1] == totals[i + 1]);
        }
    }
    assert(running(plus, zero, terms.push(term), more));
}

/// Adding up goes on where it stopped.
pub proof fn law_sums_go_on<A, T, P: Fn(A, T) -> A>(
    plus: P,
    zero: A,
    first: Seq<T>,
    middle: A,
    second: Seq<T>,
    sum: A,
)
    requires
        summed(plus, zero, first, middle),
        summed(plus, middle, second, sum),
    ensures
        summed(plus, zero, first + second, sum),
{
    let a = choose|totals: Seq<A>| #[trigger]
        running(plus, zero, first, totals) && totals.last() == middle;
    let b = choose|totals: Seq<A>| #[trigger]
        running(plus, middle, second, totals) && totals.last() == sum;
    let both = a + b.drop_first();
    let terms = first + second;
    assert forall|i: int| 0 <= i < terms.len() implies #[trigger] plus_one(plus, terms, both, i) by {
        if i < first.len() {
            assert(plus_one(plus, first, a, i));
            assert(both[i] == a[i] && both[i + 1] == a[i + 1]);
        } else {
            let j = i - first.len();
            assert(plus_one(plus, second, b, j));
            assert(both[i] == b[j]);
            assert(both[i + 1] == b[j + 1]);
        }
    }
    assert(both.last() == sum);
    assert(running(plus, zero, terms, both));
}

/// Whether `loss` may be the loss of a column: what `score` gives for the state in which
/// walking the column ends.
pub open spec fn lost<S, L, F, K>(
    step: F,
    start: S,
    score: K,
    rows: nat,
    columns: nat,
    column: nat,
    loss: L,
) -> bool where F: Fn(&S, usize, bool) -> S, K: Fn(&S, usize) -> L {
    exists|states: Seq<S>| #[trigger]
        crate::walk::walked(states, step, start, rows, columns, column) && call_ensures(
            score,
            (&states.last(), column as usize),
            loss,
        )
}

/// Adds the losses of the columns from `from` on to `total`.
fn add_column_losses<S: Copy, L, F, K, P>(
    step: &F,
    start: S,
    score: &K,
    plus: &P,
    total: L,
    rows: usize,
    columns: usize,
    from: usize,
) -> (r: L) where F: Fn(&S, usize, bool) -> S, K: Fn(&S, usize) -> L, P: Fn(L, L) -> L
    requires
        from <= columns,
        rows * columns <= usize::MAX,
        forall|state: S, c: nat, t: int|
            c < columns && 0 <= t < rows ==> #[trigger] crate::walk::may_step(
                *step,
                state,
                columns as nat,
                c,
                t,
            ),
        forall|state: &S, c: usize| c < columns ==> #[trigger] call_requires(*score, (state, c)),
        forall|a: L, b: L| #[trigger] call_requires(*plus, (a, b)),
    ensures
        exists|losses: Seq<L>|
            losses.len() == columns - from && (forall|i: int|
                0 <= i < losses.len() ==> lost(
                    *step,
                    start,
                    *score,
                    rows as nat,
                    columns as nat,
                    (from + i) as nat,
                    #[trigger] losses[i],
                )) && #[trigger] summed(*plus, total, losses, r),
{
    let ghost zero = total;
    let mut sum = total;
    let mut c: usize = from;
    let ghost mut losses: Seq<L> = Seq::empty();
    proof {
        lemma_no_terms::<L, L, P>(*plus, zero);
    }
    while c < columns
        invariant
            from <= c <= columns,
            rows * columns <= usize::MAX,
            forall|state: S, c: nat, t: int|
                c < columns && 0 <= t < rows ==> #[trigger] crate::walk::may_step(
                    *step,
                    state,
                    columns as nat,
                    c,
                    t,
                ),
            forall|state: &S, c: usize|
                c < columns ==> #[trigger] call_requires(*score, (state, c)),
            forall|a: L, b: L| #[trigger] call_requires(*plus, (a, b)),
            losses.len() == c - from,
            forall|i: int|
                0 <= i < losses.len() ==> lost(
                    *step,
                    start,
                    *score,
                    rows as nat,
                    columns as nat,
                    (from + i) as nat,
                    #[trigger] losses[i],
                ),
            summed(*plus, zero, losses, sum),
        decreases columns - c,
    {
        let states = walk(step, start, rows, columns, c);
        let loss = score(&states[rows], c);
        let ghost before = sum;
        let ghost term = loss;
        assert(states@.last() == states@[rows as int]);
        assert(lost(*step, start, *score, rows as nat, columns as nat, c as nat, term));
        sum = plus(sum, loss);
        proof {
            lemma_one_more(*plus, zero, losses, before, term, sum);
            losses = losses.push(term);
        }
        c += 1;
    }
    sum
}

/// Whether `r` may be the loss of a batch: the losses of its columns, added up one by one.
pub open spec fn batch_lost<S, L, F, K, P>(
    step: F,
    start: S,
    score: K,
    plus: P,
    zero: L,
    rows: nat,
    columns: nat,
    r: L,
) -> bool where F: Fn(&S, usize, bool) -> S, K: Fn(&S, usize) -> L, P: Fn(L, L) -> L {
    exists|losses: Seq<L>|
        losses.len() == columns && (forall|c: int|
            0 <= c < columns ==> lost(
                step,
                start,
                score,
                rows,
                columns,
                c as nat,
                #[trigger] losses[c],
            )) && #[trigger] summed(plus, zero, losses, r)
}

/// The loss of a batch, column by column. `score` gives the loss of a column from the
/// state in which it ends.
pub fn batch_loss<S: Copy, L, F, K, P>(
    step: &F,
    start: S,
    score: &K,
    plus: &P,
    zero: L,
    rows: usize,
    columns: usize,
) -> (r: L) where F: Fn(&S, usize, bool) -> S, K: Fn(&S, usize) -> L, P: Fn(L, L) -> L
    requires
        rows * columns <= usize::MAX,
        forall|state: S, c: nat, t: int|
            c < columns && 0 <= t < rows ==> #[trigger] crate::walk::may_step(
                *step,
                state,
                columns as nat,
                c,
                t,
            ),
        forall|state: &S, c: usize| c < columns ==> #[trigger] call_requires(*score, (state, c)),
        forall|a: L, b: L| #[trigger] call_requires(*plus, (a, b)),
    ensures
        batch_lost(*step, start, *score, *plus, zero, rows as nat, columns as nat, r),
{
    add_column_losses(step, start, score, plus, zero, rows, columns, 0)
}

/// The first of the eight columns that are walked together with column `c`.
pub open spec fn group_of(c: int) -> int {
    (c / 8) * 8
}

/// Whether `score` may give `eight` for the states in which eight columns end.
pub open spec fn scored8<S, L, K: Fn(&S, usize) -> [L; 8]>(
    score: K,
    state: S,
    column: nat,
    eight: [L; 8],
) -> bool {
    call_ensures(score, (&state, column as usize), eight)
}

/// Whether `loss` may be the loss of a column that is walked with seven others: that of
/// its lane in what `score` gives for the states in which they end.
pub open spec fn lost8<S, L, F, K>(
    step: F,
    start: S,
    score: K,
    rows: nat,
    columns: nat,
    c: int,
    loss: L,
) -> bool where F: Fn(&S, usize, bool) -> S, K: Fn(&S, usize) -> [L; 8] {
    exists|states: Seq<S>, eight: [L; 8]|
        #![trigger crate::walk::walked(states, step, start, rows, columns, group_of(c) as nat), scored8(score, states.last(), group_of(c) as nat, eight)]
        crate::walk::walked(states, step, start, rows, columns, group_of(c) as nat) && scored8(
            score,
            states.last(),
            group_of(c) as nat,
            eight,
        ) && eight[c % 8] == loss
}

/// The loss of a batch, eight columns at a time, and column by column where fewer than
/// eight are left. `score8` gives the losses of eight columns from the states in which
/// they end, and `score` that of one column.
pub fn batch_loss_simd<S8: Copy, S: Copy, L: Copy, F8, K8, F, K, P>(
    step8: &F8,
    start8: S8,
    score8: &K8,
    step: &F,
    start: S,
    score: &K,
    plus: &P,
    zero: L,
    rows: usize,
    columns: usize,
) -> (r: L) where
    F8: Fn(&S8, usize, bool) -> S8,
    K8: Fn(&S8, usize) -> [L; 8],
    F: Fn(&S, usize, bool) -> S,
    K: Fn(&S, usize) -> L,
    P: Fn(L, L) -> L,

    requires
        rows * columns <= usize::MAX,
        forall|state: S8, c: nat, t: int|
            c + 8 <= columns && 0 <= t < rows ==> #[trigger] crate::walk::may_step(
                *step8,
                state,
                columns as nat,
                c,
                t,
            ),
        forall|state: &S8, c: usize|
            c + 8 <= columns ==> #[trigger] call_requires(*score8, (state, c)),
        forall|state: S, c: nat, t: int|
            c < columns && 0 <= t < rows ==> #[trigger] crate::walk::may_step(
                *step,
                state,
                columns as nat,
                c,
                t,
            ),
        forall|state: &S, c: usize| c < columns ==> #[trigger] call_requires(*score, (state, c)),
        forall|a: L, b: L| #[trigger] call_requires(*plus, (a, b)),
    ensures
        exists|losses: Seq<L>|
            losses.len() == columns && (forall|c: int|
                0 <= c < group_of(columns as int) ==> lost8(
                    *step8,
                    start8,
                    *score8,
                    rows as nat,
                    columns as nat,
                    c,
                    #[trigger] losses[c],
                )) && (forall|c: int|
                group_of(columns as int) <= c < columns ==> lost(
                    *step,
                    start,
                    *score,
                    rows as nat,
                    columns as nat,
                    c as nat,
                    #[trigger] losses[c],
                )) && #[trigger] summed(*plus, zero, losses, r),
{
    let lanes = lanes_of(columns);
    let mut sum = zero;
    let mut g: usize = 0;
    let ghost mut losses: Seq<L> = Seq::empty();
    proof {
        lemma_no_terms::<L, L, P>(*plus, zero);
    }
    while g < lanes.groups
        invariant
            g <= lanes.groups,
            lanes.groups * 8 <= columns,
            rows * columns <= usize::MAX,
            forall|state: S8, c: nat, t: int|
                c + 8 <= columns && 0 <= t < rows ==> #[trigger] crate::walk::may_step(
                    *step8,
                    state,
                    columns as nat,
                    c,
                    t,
                ),
            forall|state: &S8, c: usize|
                c + 8 <= columns ==> #[trigger] call_requires(*score8, (state, c)),
            forall|a: L, b: L| #[trigger] call_requires(*plus, (a, b)),
            losses.len() == g * 8,
            forall|c: int|
                0 <= c < losses.len() ==> lost8(
                    *step8,
                    start8,
                    *score8,
                    rows as nat,
                    columns as nat,
                    c,
                    #[trigger] losses[c],
                ),
            summed(*plus, zero, losses, sum),
        decreases lanes.groups - g,
    {
        let first: usize = g * 8;
        let states = walk(step8, start8, rows, columns, first);
        let eight = score8(&states[rows], first);
        assert(states@.last() == states@[rows as int]);
        assert(scored8(*score8, states@.last(), first as nat, eight));
        let mut j: usize = 0;
        while j < 8
            invariant
                j <= 8,
                first == g * 8,
                forall|a: L, b: L| #[trigger] call_requires(*plus, (a, b)),
                crate::walk::walked(
                    states@,
                    *step8,
                    start8,
                    rows as nat,
                    columns as nat,
                    first as nat,
                ),
                scored8(*score8, states@.last(), first as nat, eight),
                losses.len() == first + j,
                forall|c: int|
                    0 <= c < losses.len() ==> lost8(
                        *step8,
                        start8,
                        *score8,
                        rows as nat,
                        columns as nat,
                        c,
                        #[trigger] losses[c],
                    ),
                summed(*plus, zero, losses, sum),
            decreases 8 - j,
        {
            let ghost before = sum;
            sum = plus(sum, eight[j]);
            proof {
                let c = first + j;
                assert(group_of(c) as nat == first as nat && c % 8 == j);
                assert(crate::walk::walked(
                    states@,
                    *step8,
                    start8,
                    rows as nat,
                    columns as nat,
                    group_of(c) as nat,
                ));
                assert(scored8(*score8, states@.last(), group_of(c) as nat, eight));
                assert(lost8(
                    *step8,
                    start8,
                    *score8,
                    rows as nat,
                    columns as nat,
                    c,
                    eight[j as int],
                ));
                lemma_one_more(*plus, zero, losses, before, eight[j as int], sum);
                losses = losses.push(eight[j as int]);
            }
            j += 1;
        }
        g += 1;
    }
    let ghost middle = sum;
    let r = add_column_losses(step, start, score, plus, sum, rows, columns, lanes.rest);
    proof {
        let rest = choose|rest: Seq<L>|
            rest.len() == columns - lanes.rest && (forall|i: int|
                0 <= i < rest.len() ==> lost(
                    *step,
                    start,
                    *score,
                    rows as nat,
                    columns as nat,
                    (lanes.rest + i) as nat,
                    #[trigger] rest[i],
                )) && #[trigger] summed(*plus, middle, rest, r);
        law_sums_go_on(*plus, zero, losses, middle, rest, r);
        let all = losses + rest;
        assert forall|c: int| group_of(columns as int) <= c < columns implies lost(
            *step,
            start,
            *score,
            rows as nat,
            columns as nat,
            c as nat,
            #[trigger] all[c],
        ) by {
            assert(all[c] == rest[c - lanes.rest]);
        }
        assert forall|c: int| 0 <= c < group_of(columns as int) implies lost8(
            *step8,
            start8,
            *score8,
            rows as nat,
            columns as nat,
            c,
            #[trigger] all[c],
        ) by {
            assert(all[c] == losses[c]);
        }
        assert(summed(*plus, zero, all, r));
    }
    r
}

/// Whether `score` may give the loss of a column, and the gradient of the state in which
/// it ends, for that state.
pub open spec fn scored_with_gradient<S, L, G, K: Fn(&S, usize) -> (L, G)>(
    score: K,
    state: S,
    column: nat,
    loss: L,
    end: G,
) -> bool {
    call_ensures(score, (&state, column as usize), (loss, end))
}

/// Whether `loss` may be the loss of a column, and `gradient` what walking the column
/// forward and back gives.
pub open spec fn taken<S, L, G, F, K, B>(
    step: F,
    start: S,
    score: K,
    back: B,
    rows: nat,
    columns: nat,
    column: nat,
    loss: L,
    gradient: G,
) -> bool where
    F: Fn(&S, usize, bool) -> S,
    K: Fn(&S, usize) -> (L, G),
    B: Fn(G, &S, usize, bool) -> G,
 {
    exists|states: Seq<S>, end: G, gradients: Seq<G>|
        #![trigger crate::walk::walked(states, step, start, rows, columns, column), crate::walk::walked_back(gradients, back, states, end, columns, column)]
        crate::walk::walked(states, step, start, rows, columns, column) && scored_with_gradient(
            score,
            states.last(),
            column,
            loss,
            end,
        ) && crate::walk::walked_back(gradients, back, states, end, columns, column)
            && gradients[0] == gradient
}

/// Whether every column `g * width`, for each `g` from `from` on, may have these losses and
/// gradients.
pub open spec fn all_taken<S, L, G, F, K, B>(
    step: F,
    start: S,
    score: K,
    back: B,
    rows: nat,
    columns: nat,
    width: nat,
    from: int,
    losses: Seq<L>,
    gradients: Seq<G>,
) -> bool where
    F: Fn(&S, usize, bool) -> S,
    K: Fn(&S, usize) -> (L, G),
    B: Fn(G, &S, usize, bool) -> G,
 {
    &&& losses.len() == gradients.len()
    &&& forall|i: int|
        0 <= i < losses.len() ==> taken(
            step,
            start,
            score,
            back,
            rows,
            columns,
            ((from + i) * width) as nat,
            #[trigger] losses[i],
            #[trigger] gradients[i],
        )
}

/// Whether `loss` may be the loss of columns `from` to `to` of a batch, and `total` its
/// gradient, added to `gradient`.
pub open spec fn ranged<S, L, G, A, F, K, B, P, H>(
    step: F,
    start: S,
    score: K,
    back: B,
    plus: P,
    gather: H,
    zero: L,
    gradient: A,
    rows: nat,
    columns: nat,
    width: nat,
    from: int,
    to: int,
    loss: L,
    total: A,
) -> bool where
    F: Fn(&S, usize, bool) -> S,
    K: Fn(&S, usize) -> (L, G),
    B: Fn(G, &S, usize, bool) -> G,
    P: Fn(L, L) -> L,
    H: Fn(A, G) -> A,
 {
    exists|losses: Seq<L>, gradients: Seq<G>| #[trigger]
        all_taken(step, start, score, back, rows, columns, width, from, losses, gradients)
            && losses.len() == to - from && summed(plus, zero, losses, loss) && summed(
            gather,
            gradient,
            gradients,
            total,
        )
}

/// The loss of some columns of a batch, and its gradient: column `g * width` for each `g`
/// from `from` to `to`, where a column stands for the `width` columns that are walked
/// together. `score` gives the loss of a column and the gradient of the state in which it
/// ends, `back` takes that gradient back, and `gather` adds what comes out at the first
/// review to `gradient`.
pub fn loss_and_grad_range<S: Copy, L, G, A, F, K, B, P, H>(
    step: &F,
    start: S,
    score: &K,
    back: &B,
    plus: &P,
    gather: &H,
    zero: L,
    gradient: A,
    rows: usize,
    columns: usize,
    width: usize,
    from: usize,
    to: usize,
) -> (r: (L, A)) where
    F: Fn(&S, usize, bool) -> S,
    K: Fn(&S, usize) -> (L, G),
    B: Fn(G, &S, usize, bool) -> G,
    P: Fn(L, L) -> L,
    H: Fn(A, G) -> A,

    requires
        from <= to,
        0 < width,
        to * width <= columns,
        rows * columns <= usize::MAX,
        forall|state: S, c: nat, t: int|
            c + width <= columns && 0 <= t < rows ==> #[trigger] crate::walk::may_step(
                *step,
                state,
                columns as nat,
                c,
                t,
            ),
        forall|state: &S, c: usize|
            c + width <= columns ==> #[trigger] call_requires(*score, (state, c)),
        forall|gradient: G, state: S, c: nat, t: int|
            c + width <= columns && 0 <= t < rows ==> #[trigger] crate::walk::may_step_back(
                *back,
                gradient,
                state,
                columns as nat,
                c,
                t,
            ),
        forall|a: L, b: L| #[trigger] call_requires(*plus, (a, b)),
        forall|a: A, b: G| #[trigger] call_requires(*gather, (a, b)),
    ensures
        ranged(
            *step,
            start,
            *score,
            *back,
            *plus,
            *gather,
            zero,
            gradient,
            rows as nat,
            columns as nat,
            width as nat,
            from as int,
            to as int,
            r.0,
            r.1,
        ),
{
    let ghost nothing = zero;
    let ghost first = gradient;
    let mut sum = zero;
    let mut total = gradient;
    let mut g: usize = from;
    let ghost mut losses: Seq<L> = Seq::empty();
    let ghost mut gradients: Seq<G> = Seq::empty();
    proof {
        lemma_no_terms::<L, L, P>(*plus, zero);
        lemma_no_terms::<A, G, H>(*gather, gradient);
    }
    while g < to
        invariant
            from <= g <= to,
            0 < width,
            to * width <= columns,
            rows * columns <= usize::MAX,
            forall|state: S, c: nat, t: int|
                c + width <= columns && 0 <= t < rows ==> #[trigger] crate::walk::may_step(
                    *step,
                    state,
                    columns as nat,
                    c,
                    t,
                ),
            forall|state: &S, c: usize|
                c + width <= columns ==> #[trigger] call_requires(*score, (state, c)),
            forall|gradient: G, state: S, c: nat, t: int|
                c + width <= columns && 0 <= t < rows ==> #[trigger] crate::walk::may_step_back(
                    *back,
                    gradient,
                    state,
                    columns as nat,
                    c,
                    t,
                ),
            forall|a: L, b: L| #[trigger] call_requires(*plus, (a, b)),
            forall|a: A, b: G| #[trigger] call_requires(*gather, (a, b)),
            losses.len() == g - from,
            gradients.len() == g - from,
            forall|i: int|
                0 <= i < g - from ==> taken(
                    *step,
                    start,
                    *score,
                    *back,
                    rows as nat,
                    columns as nat,
                    ((from + i) * width) as nat,
                    #[trigger] losses[i],
                    #[trigger] gradients[i],
                ),
            summed(*plus, nothing, losses, sum),
            summed(*gather, first, gradients, total),
        decreases to - g,
    {
        proof {
            assert(g * width + width <= to * width) by (nonlinear_arith)
                requires
                    g < to,
                    0 < width,
            ;
        }
        let column: usize = g * width;
        let states = walk(step, start, rows, columns, column);
        let (loss, end) = score(&states[rows], column);
        let ghost loss_term = loss;
        let ghost end_term = end;
        assert(states@.last() == states@[rows as int]);
        assert(scored_with_gradient(*score, states@.last(), column as nat, loss_term, end_term));
        let back_gradient = walk_back(back, &states, end, columns, column);
        let ghost gradient_term = back_gradient;
        let ghost sum_before = sum;
        let ghost total_before = total;
        assert(taken(
            *step,
            start,
            *score,
            *back,
            rows as nat,
            columns as nat,
            column as nat,
            loss_term,
            gradient_term,
        ));
        sum = plus(sum, loss);
        total = gather(total, back_gradient);
        proof {
            lemma_one_more(*plus, nothing, losses, sum_before, loss_term, sum);
            lemma_one_more(*gather, first, gradients, total_before, gradient_term, total);
            losses = losses.push(loss_term);
            gradients = gradients.push(gradient_term);
        }
        g += 1;
    }
    let r = (sum, total);
    assert(all_taken(
        *step,
        start,
        *score,
        *back,
        rows as nat,
        columns as nat,
        width as nat,
        from as int,
        losses,
        gradients,
    ));
    r
}

/// Whether a batch may have this loss and gradient, walked whole or in halves: a small one
/// is walked whole, from the gradient given, and a large one in two halves, each from
/// nothing, whose losses are added and whose gradients are added to the one given.
pub open spec fn whole_or_halves<L, A, W, T, P, M>(
    whole: W,
    halves: T,
    plus: P,
    merge: M,
    gradient: A,
    batch: usize,
    loss: L,
    total: A,
) -> bool where
    W: Fn(A, usize, usize) -> (L, A),
    T: Fn(usize, usize) -> ((L, A), (L, A)),
    P: Fn(L, L) -> L,
    M: Fn(A, A, A) -> A,
 {
    if batch < 64 {
        call_ensures(whole, (gradient, 0usize, batch), (loss, total))
    } else {
        exists|loss_a: L, total_a: A, loss_b: L, total_b: A| #[trigger]
            halved(halves, batch, loss_a, total_a, loss_b, total_b) && call_ensures(
                plus,
                (loss_a, loss_b),
                loss,
            ) && call_ensures(merge, (gradient, total_a, total_b), total)
    }
}

/// Whether `halves` may give these losses and gradients for the two halves of a batch.
pub open spec fn halved<L, A, T: Fn(usize, usize) -> ((L, A), (L, A))>(
    halves: T,
    batch: usize,
    loss_a: L,
    total_a: A,
    loss_b: L,
    total_b: A,
) -> bool {
    call_ensures(
        halves,
        ((batch as int / 2) as usize, batch),
        ((loss_a, total_a), (loss_b, total_b)),
    )
}

/// The loss of a batch, and its gradient, added to the one given. `whole` walks columns from
/// the first to the second and adds their gradient to the one it gets. A batch of 64 or
/// more is walked in two halves: `halves` is told where the second begins and where it ends,
/// and gives the loss and the gradient of each; `plus` adds the losses, and `merge` adds
/// both gradients to the one given.
pub fn batch_loss_and_grad<L, A, W, T, P, M>(
    whole: &W,
    halves: &T,
    plus: &P,
    merge: &M,
    gradient: A,
    batch: usize,
) -> (r: (L, A)) where
    W: Fn(A, usize, usize) -> (L, A),
    T: Fn(usize, usize) -> ((L, A), (L, A)),
    P: Fn(L, L) -> L,
    M: Fn(A, A, A) -> A,

    requires
        batch < 64 ==> call_requires(*whole, (gradient, 0usize, batch)),
        batch >= 64 ==> call_requires(*halves, ((batch as int / 2) as usize, batch)),
        forall|a: L, b: L| #[trigger] call_requires(*plus, (a, b)),
        forall|a: A, b: A, c: A| #[trigger] call_requires(*merge, (a, b, c)),
    ensures
        whole_or_halves(*whole, *halves, *plus, *merge, gradient, batch, r.0, r.1),
{
    match split_of(batch) {
        None => {
            let (loss, total) = whole(gradient, 0, batch);
            (loss, total)
        },
        Some(middle) => {
            let ((loss_a, total_a), (loss_b, total_b)) = halves(middle, batch);
            let ghost given = gradient;
            assert(halved(*halves, batch, loss_a, total_a, loss_b, total_b));
            let loss = plus(loss_a, loss_b);
            let total = merge(gradient, total_a, total_b);
            let r = (loss, total);
            assert(call_ensures(*plus, (loss_a, loss_b), r.0));
            assert(call_ensures(*merge, (given, total_a, total_b), r.1));
            r
        },
    }
}

/// Whether the review at a place has a weight.
pub open spec fn weighs(weights: Seq<Single>, place: int) -> bool {
    !weights[place].same(Single::zero())
}

/// The places from `first` on, of `n` at most, whose reviews have weights.
pub open spec fn weighing(weights: Seq<Single>, first: int, n: int) -> Seq<int>
    decreases n,
{
    if n <= 0 {
        Seq::empty()
    } else if weighs(weights, first + n - 1) {
        weighing(weights, first, n - 1).push(first + n - 1)
    } else {
        weighing(weights, first, n - 1)
    }
}

/// The places of the reviews that are scored in the first `rows` rows of the eight columns
/// from `column` on: those with weights, and none in the first row.
pub open spec fn scored_in_group(weights: Seq<Single>, columns: int, column: int, rows: int) -> Seq<
    int,
>
    decreases rows,
{
    if rows <= 1 {
        Seq::empty()
    } else {
        scored_in_group(weights, columns, column, rows - 1) + weighing(
            weights,
            (rows - 1) * columns + column,
            8,
        )
    }
}

/// The places of the reviews that are scored in the first `groups` groups of eight columns.
pub open spec fn scored_places(
    weights: Seq<Single>,
    rows: int,
    columns: int,
    groups: int,
) -> Seq<int>
    decreases groups,
{
    if groups <= 0 {
        Seq::empty()
    } else {
        scored_places(weights, rows, columns, groups - 1) + scored_in_group(
            weights,
            columns,
            (groups - 1) * 8,
            rows,
        )
    }
}

/// Whether `loss` may be the loss of the review at a place: that of its lane in what
/// `score` gives for the states after the reviews of its row.
pub open spec fn review_lost<S, L, F, K>(
    step: F,
    start: S,
    score: K,
    rows: nat,
    columns: nat,
    place: int,
    loss: L,
) -> bool where F: Fn(&S, usize, bool) -> S, K: Fn(&S, usize) -> [L; 8] {
    let t = place / columns as int;
    let c = place % columns as int;
    exists|states: Seq<S>, eight: [L; 8]|
        #![trigger crate::walk::walked(states, step, start, rows, columns, group_of(c) as nat), scored8(score, states[t + 1], (t * columns + group_of(c)) as nat, eight)]
        crate::walk::walked(states, step, start, rows, columns, group_of(c) as nat) && scored8(
            score,
            states[t + 1],
            (t * columns + group_of(c)) as nat,
            eight,
        ) && eight[c % 8] == loss
}

/// Adds the losses of the reviews with weights, of eight that begin at `first`.
fn add_weighing<L: Copy, P: Fn(L, L) -> L>(
    plus: &P,
    total: L,
    eight: &[L; 8],
    weights: &[Single],
    first: usize,
    t: usize,
) -> (r: (L, Ghost<Seq<L>>))
    requires
        t >= 1,
        first + 8 <= weights@.len(),
        forall|a: L, b: L| #[trigger] call_requires(*plus, (a, b)),
    ensures
        summed(*plus, total, r.1@, r.0),
        r.1@ == weighing(weights@, first as int, 8).map_values(|place: int| eight[place - first]),
{
    let count: usize = weights.len();
    let mut sum = total;
    let mut j: usize = 0;
    let ghost mut losses: Seq<L> = Seq::empty();
    proof {
        lemma_no_terms::<L, L, P>(*plus, total);
    }
    while j < 8
        invariant
            j <= 8,
            t >= 1,
            first + 8 <= count == weights@.len(),
            forall|a: L, b: L| #[trigger] call_requires(*plus, (a, b)),
            summed(*plus, total, losses, sum),
            losses == weighing(weights@, first as int, j as int).map_values(
                |place: int| eight[place - first],
            ),
        decreases 8 - j,
    {
        if is_scored(t, weights[first + j]) {
            let ghost before = sum;
            sum = plus(sum, eight[j]);
            proof {
                lemma_one_more(*plus, total, losses, before, eight[j as int], sum);
                losses = losses.push(eight[j as int]);
            }
        }
        j += 1;
        assert(losses =~= weighing(weights@, first as int, j as int).map_values(
            |place: int| eight[place - first],
        ));
    }
    (sum, Ghost(losses))
}

/// The loss of cards, eight columns at a time, each walked once over its full reviews.
/// `score8` gives the losses of the reviews of a row from the states after them. A card's
/// first review is not scored, nor one whose weight is 0.
pub fn card_loss_simd<S: Copy, L: Copy, F, K, P>(
    step8: &F,
    start8: S,
    score8: &K,
    weights: &[Single],
    plus: &P,
    zero: L,
    rows: usize,
    columns: usize,
) -> (r: L) where F: Fn(&S, usize, bool) -> S, K: Fn(&S, usize) -> [L; 8], P: Fn(L, L) -> L
    requires
        rows * columns <= weights@.len(),
        forall|state: S, c: nat, t: int|
            c + 8 <= columns && 0 <= t < rows ==> #[trigger] crate::walk::may_step(
                *step8,
                state,
                columns as nat,
                c,
                t,
            ),
        forall|state: &S, place: usize|
            place + 8 <= rows * columns ==> #[trigger] call_requires(*score8, (state, place)),
        forall|a: L, b: L| #[trigger] call_requires(*plus, (a, b)),
    ensures
        exists|losses: Seq<L>| #[trigger]
            summed(*plus, zero, losses, r) && ({
                let places = scored_places(
                    weights@,
                    rows as int,
                    columns as int,
                    columns as int / 8,
                );
                &&& losses.len() == places.len()
                &&& forall|i: int|
                    0 <= i < losses.len() ==> review_lost(
                        *step8,
                        start8,
                        *score8,
                        rows as nat,
                        columns as nat,
                        #[trigger] places[i],
                        losses[i],
                    )
            }),
{
    let count: usize = weights.len();
    let lanes = lanes_of(columns);
    let mut sum = zero;
    let mut g: usize = 0;
    let ghost mut losses: Seq<L> = Seq::empty();
    let ghost mut places: Seq<int> = Seq::empty();
    proof {
        lemma_no_terms::<L, L, P>(*plus, zero);
    }
    while g < lanes.groups
        invariant
            g <= lanes.groups,
            lanes.groups * 8 <= columns,
            rows * columns <= count == weights@.len(),
            forall|state: S, c: nat, t: int|
                c + 8 <= columns && 0 <= t < rows ==> #[trigger] crate::walk::may_step(
                    *step8,
                    state,
                    columns as nat,
                    c,
                    t,
                ),
            forall|state: &S, place: usize|
                place + 8 <= rows * columns ==> #[trigger] call_requires(*score8, (state, place)),
            forall|a: L, b: L| #[trigger] call_requires(*plus, (a, b)),
            summed(*plus, zero, losses, sum),
            places == scored_places(weights@, rows as int, columns as int, g as int),
            losses.len() == places.len(),
            forall|i: int|
                0 <= i < losses.len() ==> review_lost(
                    *step8,
                    start8,
                    *score8,
                    rows as nat,
                    columns as nat,
                    #[trigger] places[i],
                    losses[i],
                ),
        decreases lanes.groups - g,
    {
        let column: usize = g * 8;
        let states = walk(step8, start8, rows, columns, column);
        let mut t: usize = 1;
        let ghost before = places;
        while t < rows
            invariant
                1 <= t,
                column == g * 8,
                column + 8 <= columns,
                rows * columns <= count == weights@.len(),
                forall|state: &S, place: usize|
                    place + 8 <= rows * columns ==> #[trigger] call_requires(
                        *score8,
                        (state, place),
                    ),
                forall|a: L, b: L| #[trigger] call_requires(*plus, (a, b)),
                crate::walk::walked(
                    states@,
                    *step8,
                    start8,
                    rows as nat,
                    columns as nat,
                    column as nat,
                ),
                summed(*plus, zero, losses, sum),
                t <= rows || t == 1,
                places == before + scored_in_group(
                    weights@,
                    columns as int,
                    column as int,
                    t as int,
                ),
                losses.len() == places.len(),
                forall|i: int|
                    0 <= i < losses.len() ==> review_lost(
                        *step8,
                        start8,
                        *score8,
                        rows as nat,
                        columns as nat,
                        #[trigger] places[i],
                        losses[i],
                    ),
            decreases rows - t,
        {
            proof {
                assert(t * columns + column + 8 <= rows * columns) by (nonlinear_arith)
                    requires
                        t < rows,
                        column + 8 <= columns,
                ;
                assert(0 <= t * columns) by (nonlinear_arith);
            }
            let place: usize = t * columns + column;
            let eight = score8(&states[t + 1], place);
            assert(scored8(*score8, states@[t + 1], (t * columns + column) as nat, eight));
            let ghost sum_before = sum;
            let (next, Ghost(more)) = add_weighing(plus, sum, &eight, weights, place, t);
            sum = next;
            proof {
                law_sums_go_on(*plus, zero, losses, sum_before, more, sum);
                let added = weighing(weights@, place as int, 8);
                assert forall|i: int| 0 <= i < more.len() implies review_lost(
                    *step8,
                    start8,
                    *score8,
                    rows as nat,
                    columns as nat,
                    #[trigger] added[i],
                    more[i],
                ) by {
                    lemma_weighing(weights@, place as int, 8, i);
                    let j = added[i] - place;
                    assert(more[i] == eight[j]);
                    let c = column + j;
                    crate::batch::law_cells_have_places(columns as int, rows as int, t as int, c);
                    assert(added[i] == t * columns + c);
                    assert(added[i] / columns as int == t && added[i] % columns as int == c);
                    assert(group_of(c) == column && c % 8 == j);
                    assert(crate::walk::walked(
                        states@,
                        *step8,
                        start8,
                        rows as nat,
                        columns as nat,
                        group_of(c) as nat,
                    ));
                    assert(scored8(
                        *score8,
                        states@[t + 1],
                        (t * columns + group_of(c)) as nat,
                        eight,
                    ));
                }
                let all = places + added;
                let all_losses = losses + more;
                assert forall|i: int| 0 <= i < all_losses.len() implies review_lost(
                    *step8,
                    start8,
                    *score8,
                    rows as nat,
                    columns as nat,
                    #[trigger] all[i],
                    all_losses[i],
                ) by {
                    if i < places.len() {
                        assert(all[i] == places[i]);
                    } else {
                        assert(all[i] == added[i - places.len()]);
                    }
                }
                places = all;
                losses = all_losses;
                assert(places =~= before + scored_in_group(
                    weights@,
                    columns as int,
                    column as int,
                    t + 1,
                ));
            }
            t += 1;
        }
        proof {
            if rows == 0 {
                assert(scored_in_group(weights@, columns as int, column as int, 0) =~= scored_in_group(
                    weights@,
                    columns as int,
                    column as int,
                    1,
                ));
            }
        }
        g += 1;
    }
    sum
}

/// Places that weigh are listed once.
proof fn lemma_weighing_once(weights: Seq<Single>, first: int, n: int)
    ensures
        weighing(weights, first, n).no_duplicates(),
        forall|place: int| #[trigger]
            weighing(weights, first, n).contains(place) <==> first <= place < first + n && weighs(
                weights,
                place,
            ),
    decreases n,
{
    let list = weighing(weights, first, n);
    if n > 0 {
        lemma_weighing_once(weights, first, n - 1);
        let before = weighing(weights, first, n - 1);
        let last = first + n - 1;
        assert(!before.contains(last));
        assert forall|place: int| #[trigger] list.contains(place) <==> first <= place < first + n
            && weighs(weights, place) by {
            if weighs(weights, last) {
                assert(list == before.push(last));
                if place == last {
                    assert(list[before.len() as int] == last);
                }
                if before.contains(place) {
                    let i = choose|i: int| 0 <= i < before.len() && before[i] == place;
                    assert(list[i] == place);
                }
                if list.contains(place) && place != last {
                    let i = choose|i: int| 0 <= i < list.len() && list[i] == place;
                    assert(before[i] == place);
                }
            }
        }
        if weighs(weights, last) {
            assert forall|i: int, j: int| 0 <= i < list.len() && 0 <= j < list.len() && i != j implies list[i]
                != list[j] by {
                if i < before.len() {
                    assert(before.contains(before[i]));
                }
                if j < before.len() {
                    assert(before.contains(before[j]));
                }
            }
        }
    }
}

/// Lists with nothing in common make up one list.
proof fn lemma_join(a: Seq<int>, b: Seq<int>)
    requires
        a.no_duplicates(),
        b.no_duplicates(),
        forall|place: int| #[trigger] a.contains(place) ==> !b.contains(place),
    ensures
        (a + b).no_duplicates(),
        forall|place: int| #[trigger]
            (a + b).contains(place) <==> a.contains(place) || b.contains(place),
{
    let both = a + b;
    assert forall|i: int, j: int| 0 <= i < both.len() && 0 <= j < both.len() && i != j implies both[i]
        != both[j] by {
        if i < a.len() && j >= a.len() {
            assert(a.contains(a[i]) && b.contains(b[j - a.len()]));
        }
        if j < a.len() && i >= a.len() {
            assert(a.contains(a[j]) && b.contains(b[i - a.len()]));
        }
    }
    assert forall|place: int| #[trigger] both.contains(place) <==> a.contains(place) || b.contains(
        place,
    ) by {
        if a.contains(place) {
            let i = choose|i: int| 0 <= i < a.len() && a[i] == place;
            assert(both[i] == place);
        }
        if b.contains(place) {
            let i = choose|i: int| 0 <= i < b.len() && b[i] == place;
            assert(both[a.len() + i] == place);
        }
        if both.contains(place) {
            let i = choose|i: int| 0 <= i < both.len() && both[i] == place;
            if i < a.len() {
                assert(a[i] == place);
            } else {
                assert(b[i - a.len()] == place);
            }
        }
    }
}

/// The row of a place, and its column.
proof fn lemma_row(columns: int, t: int, place: int)
    requires
        columns > 0,
    ensures
        place / columns == t <==> t * columns <= place < t * columns + columns,
        place / columns == t ==> place % columns == place - t * columns,
{
    vstd::arithmetic::div_mod::lemma_fundamental_div_mod(place, columns);
    let q = place / columns;
    let r = place % columns;
    assert(columns * q == q * columns) by (nonlinear_arith);
    assert(0 <= r < columns);
    if t * columns <= place < t * columns + columns {
        assert(q == t) by (nonlinear_arith)
            requires
                place == q * columns + r,
                0 <= r < columns,
                t * columns <= place < t * columns + columns,
        ;
    }
}

proof fn lemma_group_once(weights: Seq<Single>, columns: int, column: int, rows: int)
    requires
        0 <= column,
        column + 8 <= columns,
    ensures
        scored_in_group(weights, columns, column, rows).no_duplicates(),
        forall|place: int| #[trigger]
            scored_in_group(weights, columns, column, rows).contains(place) <==> 1 <= place
                / columns < rows && column <= place % columns < column + 8 && weighs(
                weights,
                place,
            ),
    decreases rows,
{
    if rows > 1 {
        let t = rows - 1;
        lemma_group_once(weights, columns, column, t);
        let before = scored_in_group(weights, columns, column, t);
        let first = t * columns + column;
        let row = weighing(weights, first, 8);
        lemma_weighing_once(weights, first, 8);
        assert forall|place: int| #[trigger] row.contains(place) <==> place / columns == t && column
            <= place % columns < column + 8 && weighs(weights, place) by {
            lemma_row(columns, t, place);
        }
        assert forall|place: int| #[trigger] before.contains(place) implies !row.contains(place) by {}
        lemma_join(before, row);
    }
}

/// In a walk over full cards, every review with a weight is scored, except the first of
/// its card, and each is scored once.
pub proof fn law_reviews_with_weights_are_scored_once(
    weights: Seq<Single>,
    rows: int,
    columns: int,
    groups: int,
)
    requires
        0 <= groups,
        0 < columns,
        groups * 8 <= columns,
    ensures
        scored_places(weights, rows, columns, groups).no_duplicates(),
        forall|place: int| #[trigger]
            scored_places(weights, rows, columns, groups).contains(place) <==> 1 <= place / columns
                < rows && place % columns < groups * 8 && weighs(weights, place),
    decreases groups,
{
    if groups > 0 {
        law_reviews_with_weights_are_scored_once(weights, rows, columns, groups - 1);
        let before = scored_places(weights, rows, columns, groups - 1);
        let group = scored_in_group(weights, columns, (groups - 1) * 8, rows);
        lemma_group_once(weights, columns, (groups - 1) * 8, rows);
        assert forall|place: int| #[trigger] before.contains(place) implies !group.contains(place) by {}
        lemma_join(before, group);
    } else {
        let none = scored_places(weights, rows, columns, groups);
        assert forall|place: int| #[trigger] none.contains(place) <==> 1 <= place / columns < rows
            && place % columns < groups * 8 && weighs(weights, place) by {
            lemma_row(columns, place / columns, place);
        }
    }
}

/// Where the places that weigh are.
proof fn lemma_weighing(weights: Seq<Single>, first: int, n: int, i: int)
    requires
        0 <= i < weighing(weights, first, n).len(),
    ensures
        first <= weighing(weights, first, n)[i] < first + n,
        weighs(weights, weighing(weights, first, n)[i]),
    decreases n,
{
    if n > 0 {
        let before = weighing(weights, first, n - 1);
        if i < before.len() {
            lemma_weighing(weights, first, n - 1, i);
            assert(weighing(weights, first, n)[i] == before[i]);
        }
    }
}

/// A sum takes every term once, in the order given: reading totals and terms as whole numbers
/// that add up, it is where adding began and all the terms. Without terms it is where adding
/// began.
pub proof fn law_sums_take_every_term_once<A, T, P: Fn(A, T) -> A>(
    plus: P,
    zero: A,
    terms: Seq<T>,
    sum: A,
    total: spec_fn(A) -> int,
    amount: spec_fn(T) -> int,
)
    requires
        summed(plus, zero, terms, sum),
        forall|a: A, t: T, b: A| #[trigger]
            call_ensures(plus, (a, t), b) ==> total(b) == total(a) + amount(t),
    ensures
        total(sum) == total(zero) + terms.fold_left(0int, |s: int, t: T| s + amount(t)),
        terms.len() == 0 ==> sum == zero,
        terms.len() == 1 ==> call_ensures(plus, (zero, terms[0]), sum),
        terms.len() == 2 ==> exists|middle: A| #[trigger]
            call_ensures(plus, (zero, terms[0]), middle) && call_ensures(
                plus,
                (middle, terms[1]),
                sum,
            ),
{
    let totals = choose|totals: Seq<A>| #[trigger]
        running(plus, zero, terms, totals) && totals.last() == sum;
    lemma_running_totals(plus, zero, terms, totals, total, amount, terms.len() as int);
    assert(terms.take(terms.len() as int) =~= terms);
    if terms.len() >= 1 {
        assert(plus_one(plus, terms, totals, 0));
    }
    if terms.len() == 2 {
        assert(plus_one(plus, terms, totals, 1));
        assert(call_ensures(plus, (zero, terms[0]), totals[1]));
    }
}

proof fn lemma_running_totals<A, T, P: Fn(A, T) -> A>(
    plus: P,
    zero: A,
    terms: Seq<T>,
    totals: Seq<A>,
    total: spec_fn(A) -> int,
    amount: spec_fn(T) -> int,
    i: int,
)
    requires
        running(plus, zero, terms, totals),
        forall|a: A, t: T, b: A| #[trigger]
            call_ensures(plus, (a, t), b) ==> total(b) == total(a) + amount(t),
        0 <= i <= terms.len(),
    ensures
        total(totals[i]) == total(zero) + terms.take(i).fold_left(
            0int,
            |s: int, t: T| s + amount(t),
        ),
    decreases i,
{
    if i > 0 {
        lemma_running_totals(plus, zero, terms, totals, total, amount, i - 1);
        assert(plus_one(plus, terms, totals, i - 1));
        assert(terms.take(i).drop_last() =~= terms.take(i - 1));
    }
}

/// The loss of a column is what `score` gives for the state in which walking all its rows
/// ends, and for that column.
pub proof fn law_losses_come_from_the_end_of_a_column<S, L, F, K>(
    step: F,
    start: S,
    score: K,
    rows: nat,
    columns: nat,
    column: nat,
    loss: L,
) where F: Fn(&S, usize, bool) -> S, K: Fn(&S, usize) -> L
    requires
        lost(step, start, score, rows, columns, column, loss),
    ensures
        exists|states: Seq<S>|
            #![trigger states.last()]
            states.len() == rows + 1 && states[0] == start && (forall|t: int|
                #![trigger states[t]]
                0 <= t < rows ==> call_ensures(
                    step,
                    (&states[t], (t * columns + column) as usize, t == 0),
                    states[t + 1],
                )) && call_ensures(score, (&states.last(), column as usize), loss),
{
    let states = choose|states: Seq<S>| #[trigger]
        crate::walk::walked(states, step, start, rows, columns, column) && call_ensures(
            score,
            (&states.last(), column as usize),
            loss,
        );
    crate::walk::law_walks_take_each_row_in_turn(states, step, start, rows, columns, column);
    assert(states.last() == states[rows as int]);
}

/// Eight columns are walked together: column `c` is lane `c % 8` of the group that begins
/// `c % 8` columns before it, and each column is in one group.
pub proof fn law_groups_are_of_eight(c: int)
    requires
        c >= 0,
    ensures
        group_of(c) <= c < group_of(c) + 8,
        group_of(c) % 8 == 0,
        c - group_of(c) == c % 8,
{
}

/// A review is without weight if and only if its weight is 0, of either sign.
pub proof fn law_weights_of_zero_do_not_count(weights: Seq<Single>, place: int)
    ensures
        weighs(weights, place) <==> weights[place].nan() || weights[place].value() != 0,
{
    crate::single::lemma_zero();
}

/// The loss of a column that is walked with seven others is that of its own lane, in what is
/// given for the states in which walking the whole group ends.
pub proof fn law_lanes_have_their_own_loss<S, L, F, K>(
    step: F,
    start: S,
    score: K,
    rows: nat,
    columns: nat,
    c: int,
    loss: L,
) where F: Fn(&S, usize, bool) -> S, K: Fn(&S, usize) -> [L; 8]
    requires
        lost8(step, start, score, rows, columns, c, loss),
        c >= 0,
    ensures
        exists|states: Seq<S>, eight: [L; 8]|
            #![trigger crate::walk::walked(states, step, start, rows, columns, (c - c % 8) as nat), eight[c % 8]]
            crate::walk::walked(states, step, start, rows, columns, (c - c % 8) as nat)
                && call_ensures(score, (&states.last(), (c - c % 8) as usize), eight) && eight[c % 8]
                == loss,
{
    law_groups_are_of_eight(c);
    let (states, eight) = choose|states: Seq<S>, eight: [L; 8]|
        #![trigger crate::walk::walked(states, step, start, rows, columns, group_of(c) as nat), scored8(score, states.last(), group_of(c) as nat, eight)]
        crate::walk::walked(states, step, start, rows, columns, group_of(c) as nat) && scored8(
            score,
            states.last(),
            group_of(c) as nat,
            eight,
        ) && eight[c % 8] == loss;
    assert(crate::walk::walked(states, step, start, rows, columns, (c - c % 8) as nat));
    assert(scored8(score, states.last(), group_of(c) as nat, eight));
    assert(eight[c % 8] == loss);
}

/// The loss and the gradient of a column come of walking it to its end, scoring the state
/// there, and walking back from the gradient of that state to the first review.
pub proof fn law_gradients_come_of_walking_back<S, L, G, F, K, B>(
    step: F,
    start: S,
    score: K,
    back: B,
    rows: nat,
    columns: nat,
    column: nat,
    loss: L,
    gradient: G,
) where
    F: Fn(&S, usize, bool) -> S,
    K: Fn(&S, usize) -> (L, G),
    B: Fn(G, &S, usize, bool) -> G,

    requires
        taken(step, start, score, back, rows, columns, column, loss, gradient),
    ensures
        exists|states: Seq<S>, end: G, gradients: Seq<G>|
            #![trigger crate::walk::walked(states, step, start, rows, columns, column), crate::walk::walked_back(gradients, back, states, end, columns, column)]
            {
                &&& crate::walk::walked(states, step, start, rows, columns, column)
                &&& call_ensures(score, (&states.last(), column as usize), (loss, end))
                &&& crate::walk::walked_back(gradients, back, states, end, columns, column)
                &&& gradients[0] == gradient
            },
{
    let (states, end, gradients) = choose|states: Seq<S>, end: G, gradients: Seq<G>|
        #![trigger crate::walk::walked(states, step, start, rows, columns, column), crate::walk::walked_back(gradients, back, states, end, columns, column)]
        crate::walk::walked(states, step, start, rows, columns, column) && scored_with_gradient(
            score,
            states.last(),
            column,
            loss,
            end,
        ) && crate::walk::walked_back(gradients, back, states, end, columns, column)
            && gradients[0] == gradient;
    assert(scored_with_gradient(score, states.last(), column, loss, end));
    assert(crate::walk::walked(states, step, start, rows, columns, column));
    assert(crate::walk::walked_back(gradients, back, states, end, columns, column));
}

/// The columns of a range are taken one after the other, without a gap: the losses and
/// gradients that are added up are those of columns `from * width`, `(from + 1) * width` and
/// so on, each with its own gradient.
pub proof fn law_ranges_take_each_column<S, L, G, F, K, B>(
    step: F,
    start: S,
    score: K,
    back: B,
    rows: nat,
    columns: nat,
    width: nat,
    from: int,
    losses: Seq<L>,
    gradients: Seq<G>,
    i: int,
) where
    F: Fn(&S, usize, bool) -> S,
    K: Fn(&S, usize) -> (L, G),
    B: Fn(G, &S, usize, bool) -> G,

    requires
        all_taken(step, start, score, back, rows, columns, width, from, losses, gradients),
        0 <= i < losses.len(),
    ensures
        gradients.len() == losses.len(),
        taken(
            step,
            start,
            score,
            back,
            rows,
            columns,
            (from * width + i * width) as nat,
            losses[i],
            gradients[i],
        ),
{
    let (l, g) = (losses[i], gradients[i]);
    assert((from + i) * width == from * width + i * width) by (nonlinear_arith);
    assert(taken(
        step,
        start,
        score,
        back,
        rows,
        columns,
        ((from + i) * width) as nat,
        l,
        g,
    ));
}

/// A review of a card is scored by the state after its own row, and in its own lane of the
/// eight columns that it is walked with.
pub proof fn law_reviews_are_scored_in_their_lane<S, L, F, K>(
    step: F,
    start: S,
    score: K,
    rows: nat,
    columns: nat,
    t: int,
    c: int,
    loss: L,
) where F: Fn(&S, usize, bool) -> S, K: Fn(&S, usize) -> [L; 8]
    requires
        0 <= t < rows,
        0 <= c < columns,
        review_lost(step, start, score, rows, columns, t * columns + c, loss),
    ensures
        exists|states: Seq<S>, eight: [L; 8]|
            #![trigger crate::walk::walked(states, step, start, rows, columns, (c - c % 8) as nat), eight[c % 8]]
            crate::walk::walked(states, step, start, rows, columns, (c - c % 8) as nat)
                && call_ensures(
                score,
                (&states[t + 1], (t * columns + (c - c % 8)) as usize),
                eight,
            ) && eight[c % 8] == loss,
{
    crate::batch::law_cells_have_places(columns as int, rows as int, t, c);
    law_groups_are_of_eight(c);
    let group = group_of(c);
    let (states, eight) = choose|states: Seq<S>, eight: [L; 8]|
        #![trigger crate::walk::walked(states, step, start, rows, columns, group as nat), scored8(score, states[t + 1], (t * columns + group) as nat, eight)]
        crate::walk::walked(states, step, start, rows, columns, group as nat) && scored8(
            score,
            states[t + 1],
            (t * columns + group) as nat,
            eight,
        ) && eight[c % 8] == loss;
    assert(crate::walk::walked(states, step, start, rows, columns, (c - c % 8) as nat));
    assert(scored8(score, states[t + 1], (t * columns + group) as nat, eight));
    assert(0 <= t * columns) by (nonlinear_arith)
        requires
            0 <= t,
            0 <= columns,
    ;
    assert(eight[c % 8] == loss);
}

} // verus!
