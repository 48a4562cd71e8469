//! How the losses and gradients of parts of a batch add up.
//!
//! What is stated here holds of sums that do not depend on the order of adding, and of
//! functions that give the same for the same arguments.

use crate::losses::{
    all_taken, batch_lost, halved, lost, plus_one, ranged, running, scored_with_gradient, summed,
    taken, whole_or_halves,
};
use crate::walk::{stepped, stepped_back, walked, walked_back};
use vstd::prelude::*;

verus! {

/// Whether `gather` adds a term to a total as `gather_of` does, and `merge_of` adds two
/// totals, of which `none` is the empty one, in whatever order.
pub open spec fn adds_up<A, T, H: Fn(A, T) -> A>(
    gather: H,
    gather_of: spec_fn(A, T) -> A,
    merge_of: spec_fn(A, A) -> A,
    none: A,
) -> bool {
    &&& forall|a: A, t: T, b: A| #[trigger]
        call_ensures(gather, (a, t), b) ==> b == gather_of(a, t)
    &&& forall|a: A, b: A, t: T| #[trigger]
        merge_of(a, gather_of(b, t)) == gather_of(merge_of(a, b), t)
    &&& forall|a: A| #[trigger] merge_of(a, none) == a
}

/// Whether walking a column gives the same for the same arguments.
pub open spec fn one_walk<S, L, G, F, K, B>(step: F, score: K, back: B) -> bool where
    F: Fn(&S, usize, bool) -> S,
    K: Fn(&S, usize) -> (L, G),
    B: Fn(G, &S, usize, bool) -> G,
 {
    &&& forall|s: &S, place: usize, first: bool, x: S, y: S|
        #![trigger call_ensures(step, (s, place, first), x), call_ensures(step, (s, place, first), y)]
        call_ensures(step, (s, place, first), x) && call_ensures(step, (s, place, first), y) ==> x
            == y
    &&& forall|s: S, c: nat, l: L, g: G, m: L, h: G|
        #![trigger scored_with_gradient(score, s, c, l, g), scored_with_gradient(score, s, c, m, h)]
        scored_with_gradient(score, s, c, l, g) && scored_with_gradient(score, s, c, m, h) ==> l
            == m && g == h
    &&& forall|g: G, s: &S, place: usize, first: bool, x: G, y: G|
        #![trigger call_ensures(back, (g, s, place, first), x), call_ensures(back, (g, s, place, first), y)]
        call_ensures(back, (g, s, place, first), x) && call_ensures(back, (g, s, place, first), y)
            ==> x == y
}

proof fn lemma_walks_agree<S, F: Fn(&S, usize, bool) -> S>(
    step: F,
    start: S,
    rows: nat,
    columns: nat,
    column: nat,
    a: Seq<S>,
    b: Seq<S>,
    t: int,
)
    requires
        forall|s: &S, place: usize, first: bool, x: S, y: S|
            #![trigger call_ensures(step, (s, place, first), x), call_ensures(step, (s, place, first), y)]
            call_ensures(step, (s, place, first), x) && call_ensures(step, (s, place, first), y)
                ==> x == y,
        walked(a, step, start, rows, columns, column),
        walked(b, step, start, rows, columns, column),
        0 <= t <= rows,
    ensures
        a[t] == b[t],
    decreases t,
{
    if t > 0 {
        lemma_walks_agree(step, start, rows, columns, column, a, b, t - 1);
        assert(stepped(a, step, columns, column, t - 1));
        assert(stepped(b, step, columns, column, t - 1));
    }
}

proof fn lemma_walks_back_agree<S, G, B: Fn(G, &S, usize, bool) -> G>(
    back: B,
    states: Seq<S>,
    end: G,
    columns: nat,
    column: nat,
    a: Seq<G>,
    b: Seq<G>,
    t: int,
)
    requires
        forall|g: G, s: &S, place: usize, first: bool, x: G, y: G|
            #![trigger call_ensures(back, (g, s, place, first), x), call_ensures(back, (g, s, place, first), y)]
            call_ensures(back, (g, s, place, first), x) && call_ensures(
                back,
                (g, s, place, first),
                y,
            ) ==> x == y,
        walked_back(a, back, states, end, columns, column),
        walked_back(b, back, states, end, columns, column),
        0 <= t < states.len(),
    ensures
        a[t] == b[t],
    decreases states.len() - t,
{
    if t < states.len() - 1 {
        lemma_walks_back_agree(back, states, end, columns, column, a, b, t + 1);
        assert(stepped_back(a, back, states, columns, column, t));
        assert(stepped_back(b, back, states, columns, column, t));
    }
}

proof fn lemma_columns_agree<S, L, G, F, K, B>(
    step: F,
    start: S,
    score: K,
    back: B,
    rows: nat,
    columns: nat,
    column: nat,
    l: L,
    g: G,
    m: L,
    h: G,
) where
    F: Fn(&S, usize, bool) -> S,
    K: Fn(&S, usize) -> (L, G),
    B: Fn(G, &S, usize, bool) -> G,

    requires
        one_walk(step, score, back),
        taken(step, start, score, back, rows, columns, column, l, g),
        taken(step, start, score, back, rows, columns, column, m, h),
    ensures
        l == m,
        g == h,
{
    let (a, x, u) = choose|states: Seq<S>, end: G, gradients: Seq<G>|
        #![trigger walked(states, step, start, rows, columns, column), walked_back(gradients, back, states, end, columns, column)]
        walked(states, step, start, rows, columns, column) && scored_with_gradient(
            score,
            states.last(),
            column,
            l,
            end,
        ) && walked_back(gradients, back, states, end, columns, column) && gradients[0] == g;
    let (b, y, v) = choose|states: Seq<S>, end: G, gradients: Seq<G>|
        #![trigger walked(states, step, start, rows, columns, column), walked_back(gradients, back, states, end, columns, column)]
        walked(states, step, start, rows, columns, column) && scored_with_gradient(
            score,
            states.last(),
            column,
            m,
            end,
        ) && walked_back(gradients, back, states, end, columns, column) && gradients[0] == h;
    assert forall|t: int| 0 <= t < a.len() implies a[t] == b[t] by {
        lemma_walks_agree(step, start, rows, columns, column, a, b, t);
    }
    assert(a =~= b);
    assert(x == y);
    lemma_walks_back_agree(back, a, x, columns, column, u, v, 0);
}

/// Adding terms up from a total gives that total and what adding them up from nothing gives.
pub proof fn law_sums_start_anywhere<A, T, H: Fn(A, T) -> A>(
    gather: H,
    gather_of: spec_fn(A, T) -> A,
    merge_of: spec_fn(A, A) -> A,
    none: A,
    given: A,
    terms: Seq<T>,
    sum: A,
    other: A,
)
    requires
        adds_up(gather, gather_of, merge_of, none),
        summed(gather, none, terms, sum),
        summed(gather, given, terms, other),
    ensures
        other == merge_of(given, sum),
{
    let a = choose|totals: Seq<A>| #[trigger]
        running(gather, none, terms, totals) && totals.last() == sum;
    let b = choose|totals: Seq<A>| #[trigger]
        running(gather, given, terms, totals) && totals.last() == other;
    lemma_totals_move(gather, gather_of, merge_of, none, given, terms, a, b, terms.len() as int);
}

proof fn lemma_totals_move<A, T, H: Fn(A, T) -> A>(
    gather: H,
    gather_of: spec_fn(A, T) -> A,
    merge_of: spec_fn(A, A) -> A,
    none: A,
    given: A,
    terms: Seq<T>,
    a: Seq<A>,
    b: Seq<A>,
    i: int,
)
    requires
        adds_up(gather, gather_of, merge_of, none),
        running(gather, none, terms, a),
        running(gather, given, terms, b),
        0 <= i <= terms.len(),
    ensures
        b[i] == merge_of(given, a[i]),
    decreases i,
{
    if i > 0 {
        let j = i - 1;
        lemma_totals_move(gather, gather_of, merge_of, none, given, terms, a, b, j);
        assert(plus_one(gather, terms, a, j));
        assert(plus_one(gather, terms, b, j));
        assert(merge_of(given, gather_of(a[j], terms[j])) == gather_of(
            merge_of(given, a[j]),
            terms[j],
        ));
    }
}

/// Adding up the second part of terms goes on from the sum of the first.
proof fn lemma_sums_split<A, T, H: Fn(A, T) -> A>(
    gather: H,
    gather_of: spec_fn(A, T) -> A,
    merge_of: spec_fn(A, A) -> A,
    none: A,
    given: A,
    first: Seq<T>,
    second: Seq<T>,
    a: A,
    b: A,
    sum: A,
)
    requires
        adds_up(gather, gather_of, merge_of, none),
        summed(gather, given, first, a),
        summed(gather, none, second, b),
        summed(gather, given, first + second, sum),
    ensures
        sum == merge_of(a, b),
{
    let terms = first + second;
    let n = first.len() as int;
    let us = choose|totals: Seq<A>| #[trigger]
        running(gather, given, first, totals) && totals.last() == a;
    let ws = choose|totals: Seq<A>| #[trigger]
        running(gather, given, terms, totals) && totals.last() == sum;
    assert(terms.take(n) =~= first);
    lemma_totals_agree(gather, gather_of, merge_of, none, given, first, terms, us, ws, n);
    let rest = ws.skip(n);
    assert forall|i: int| 0 <= i < second.len() implies #[trigger] plus_one(gather, second, rest, i) by {
        assert(plus_one(gather, terms, ws, n + i));
        assert(rest[i] == ws[n + i] && rest[i + 1] == ws[n + i + 1] && terms[n + i] == second[i]);
    }
    assert(running(gather, a, second, rest));
    assert(rest.last() == sum);
    assert(summed(gather, a, second, sum));
    law_sums_start_anywhere(gather, gather_of, merge_of, none, a, second, b, sum);
}

proof fn lemma_totals_agree<A, T, H: Fn(A, T) -> A>(
    gather: H,
    gather_of: spec_fn(A, T) -> A,
    merge_of: spec_fn(A, A) -> A,
    none: A,
    given: A,
    first: Seq<T>,
    terms: Seq<T>,
    a: Seq<A>,
    b: Seq<A>,
    i: int,
)
    requires
        adds_up(gather, gather_of, merge_of, none),
        running(gather, given, first, a),
        running(gather, given, terms, b),
        first.len() <= terms.len(),
        terms.take(first.len() as int) == first,
        0 <= i <= first.len(),
    ensures
        a[i] == b[i],
    decreases i,
{
    if i > 0 {
        let j = i - 1;
        lemma_totals_agree(gather, gather_of, merge_of, none, given, first, terms, a, b, j);
        assert(plus_one(gather, first, a, j));
        assert(plus_one(gather, terms, b, j));
        assert(first[j] == terms.take(first.len() as int)[j]);
    }
}

proof fn lemma_all_agree<S, L, G, F, K, B>(
    step: F,
    start: S,
    score: K,
    back: B,
    rows: nat,
    columns: nat,
    width: nat,
    from: int,
    ls: Seq<L>,
    gs: Seq<G>,
    ms: Seq<L>,
    hs: Seq<G>,
) where
    F: Fn(&S, usize, bool) -> S,
    K: Fn(&S, usize) -> (L, G),
    B: Fn(G, &S, usize, bool) -> G,

    requires
        one_walk(step, score, back),
        all_taken(step, start, score, back, rows, columns, width, from, ls, gs),
        all_taken(step, start, score, back, rows, columns, width, from, ms, hs),
        ls.len() == ms.len(),
    ensures
        ls == ms,
        gs == hs,
{
    assert forall|i: int| 0 <= i < ls.len() implies ls[i] == ms[i] && gs[i] == hs[i] by {
        let column = ((from + i) * width) as nat;
        let (l, g, m, h) = (ls[i], gs[i], ms[i], hs[i]);
        assert(taken(step, start, score, back, rows, columns, column, l, g));
        assert(taken(step, start, score, back, rows, columns, column, m, h));
        lemma_columns_agree(step, start, score, back, rows, columns, column, l, g, m, h);
    }
    assert(ls =~= ms);
    assert(gs =~= hs);
}

/// The gradient of columns is added to the one that is given, which is not overwritten: it
/// is the sum of that one and what starting from nothing gives. The loss is the same.
pub proof fn law_gradients_are_added<S, L, G, A, F, K, B, P, H>(
    step: F,
    start: S,
    score: K,
    back: B,
    plus: P,
    gather: H,
    zero: L,
    rows: nat,
    columns: nat,
    width: nat,
    from: int,
    to: int,
    plus_of: spec_fn(L, L) -> L,
    gather_of: spec_fn(A, G) -> A,
    merge_of: spec_fn(A, A) -> A,
    none: A,
    given: A,
    loss: L,
    total: A,
    loss_given: L,
    total_given: A,
) where
    F: Fn(&S, usize, bool) -> S,
    K: Fn(&S, usize) -> (L, G),
    B: Fn(G, &S, usize, bool) -> G,
    P: Fn(L, L) -> L,
    H: Fn(A, G) -> A,

    requires
        one_walk(step, score, back),
        adds_up(plus, plus_of, plus_of, zero),
        adds_up(gather, gather_of, merge_of, none),
        ranged(
            step,
            start,
            score,
            back,
            plus,
            gather,
            zero,
            none,
            rows,
            columns,
            width,
            from,
            to,
            loss,
            total,
        ),
        ranged(
            step,
            start,
            score,
            back,
            plus,
            gather,
            zero,
            given,
            rows,
            columns,
            width,
            from,
            to,
            loss_given,
            total_given,
        ),
    ensures
        loss_given == loss,
        total_given == merge_of(given, total),
{
    let (ls, gs) = choose|losses: Seq<L>, gradients: Seq<G>| #[trigger]
        all_taken(step, start, score, back, rows, columns, width, from, losses, gradients)
            && losses.len() == to - from && summed(plus, zero, losses, loss) && summed(
            gather,
            none,
            gradients,
            total,
        );
    let (ms, hs) = choose|losses: Seq<L>, gradients: Seq<G>| #[trigger]
        all_taken(step, start, score, back, rows, columns, width, from, losses, gradients)
            && losses.len() == to - from && summed(plus, zero, losses, loss_given) && summed(
            gather,
            given,
            gradients,
            total_given,
        );
    lemma_all_agree(step, start, score, back, rows, columns, width, from, ls, gs, ms, hs);
    let us = choose|totals: Seq<L>| #[trigger]
        running(plus, zero, ls, totals) && totals.last() == loss;
    let vs = choose|totals: Seq<L>| #[trigger]
        running(plus, zero, ls, totals) && totals.last() == loss_given;
    assert(ls.take(ls.len() as int) =~= ls);
    lemma_totals_agree(plus, plus_of, plus_of, zero, zero, ls, ls, us, vs, ls.len() as int);
    law_sums_start_anywhere(gather, gather_of, merge_of, none, given, gs, total, total_given);
}

/// Two halves of a range of columns add up to the whole: what the columns from `from` to
/// `middle` and those from `middle` to `to` give, added, is what the columns from `from` to
/// `to` give.
pub proof fn law_halves_add_up_to_the_whole<S, L, G, A, F, K, B, P, H>(
    step: F,
    start: S,
    score: K,
    back: B,
    plus: P,
    gather: H,
    zero: L,
    rows: nat,
    columns: nat,
    width: nat,
    from: int,
    middle: int,
    to: int,
    plus_of: spec_fn(L, L) -> L,
    gather_of: spec_fn(A, G) -> A,
    merge_of: spec_fn(A, A) -> A,
    none: A,
    given: A,
    loss_a: L,
    total_a: A,
    loss_b: L,
    total_b: A,
    loss: L,
    total: A,
) where
    F: Fn(&S, usize, bool) -> S,
    K: Fn(&S, usize) -> (L, G),
    B: Fn(G, &S, usize, bool) -> G,
    P: Fn(L, L) -> L,
    H: Fn(A, G) -> A,

    requires
        from <= middle <= to,
        one_walk(step, score, back),
        adds_up(plus, plus_of, plus_of, zero),
        adds_up(gather, gather_of, merge_of, none),
        ranged(
            step,
            start,
            score,
            back,
            plus,
            gather,
            zero,
            given,
            rows,
            columns,
            width,
            from,
            middle,
            loss_a,
            total_a,
        ),
        ranged(
            step,
            start,
            score,
            back,
            plus,
            gather,
            zero,
            none,
            rows,
            columns,
            width,
            middle,
            to,
            loss_b,
            total_b,
        ),
        ranged(
            step,
            start,
            score,
            back,
            plus,
            gather,
            zero,
            given,
            rows,
            columns,
            width,
            from,
            to,
            loss,
            total,
        ),
    ensures
        loss == plus_of(loss_a, loss_b),
        total == merge_of(total_a, total_b),
{
    let (ls, gs) = choose|losses: Seq<L>, gradients: Seq<G>| #[trigger]
        all_taken(step, start, score, back, rows, columns, width, from, losses, gradients)
            && losses.len() == middle - from && summed(plus, zero, losses, loss_a) && summed(
            gather,
            given,
            gradients,
            total_a,
        );
    let (ms, hs) = choose|losses: Seq<L>, gradients: Seq<G>| #[trigger]
        all_taken(step, start, score, back, rows, columns, width, middle, losses, gradients)
            && losses.len() == to - middle && summed(plus, zero, losses, loss_b) && summed(
            gather,
            none,
            gradients,
            total_b,
        );
    let (ns, ks) = choose|losses: Seq<L>, gradients: Seq<G>| #[trigger]
        all_taken(step, start, score, back, rows, columns, width, from, losses, gradients)
            && losses.len() == to - from && summed(plus, zero, losses, loss) && summed(
            gather,
            given,
            gradients,
            total,
        );
    let losses = ls + ms;
    let gradients = gs + hs;
    assert forall|i: int| 0 <= i < losses.len() implies taken(
        step,
        start,
        score,
        back,
        rows,
        columns,
        ((from + i) * width) as nat,
        #[trigger] losses[i],
        #[trigger] gradients[i],
    ) by {
        if i < ls.len() {
            assert(losses[i] == ls[i] && gradients[i] == gs[i]);
        } else {
            let j = i - ls.len();
            assert(losses[i] == ms[j] && gradients[i] == hs[j]);
            assert((middle + j) * width == (from + i) * width);
        }
    }
    assert(all_taken(step, start, score, back, rows, columns, width, from, losses, gradients));
    lemma_all_agree(
        step,
        start,
        score,
        back,
        rows,
        columns,
        width,
        from,
        losses,
        gradients,
        ns,
        ks,
    );
    lemma_sums_split(plus, plus_of, plus_of, zero, zero, ls, ms, loss_a, loss_b, loss);
    lemma_sums_split(gather, gather_of, merge_of, none, given, gs, hs, total_a, total_b, total);
}

/// The loss that comes with a gradient is the loss of the batch, where both are scored
/// alike.
pub proof fn law_gradients_come_with_the_loss<S, L, G, A, F, K, Q, B, P, H>(
    step: F,
    start: S,
    score: K,
    alone: Q,
    back: B,
    plus: P,
    gather: H,
    zero: L,
    gradient: A,
    rows: nat,
    columns: nat,
    plus_of: spec_fn(L, L) -> L,
    loss: L,
    total: A,
    loss_alone: L,
) where
    F: Fn(&S, usize, bool) -> S,
    K: Fn(&S, usize) -> (L, G),
    B: Fn(G, &S, usize, bool) -> G,
    P: Fn(L, L) -> L,
    H: Fn(A, G) -> A,
    Q: Fn(&S, usize) -> L,

    requires
        one_walk(step, score, back),
        adds_up(plus, plus_of, plus_of, zero),
        forall|s: S, c: nat, l: L, end: G, m: L|
            #![trigger scored_with_gradient(score, s, c, l, end), call_ensures(alone, (&s, c as usize), m)]
            scored_with_gradient(score, s, c, l, end) && call_ensures(alone, (&s, c as usize), m)
                ==> l == m,
        ranged(
            step,
            start,
            score,
            back,
            plus,
            gather,
            zero,
            gradient,
            rows,
            columns,
            1,
            0,
            columns as int,
            loss,
            total,
        ),
        batch_lost(step, start, alone, plus, zero, rows, columns, loss_alone),
    ensures
        loss == loss_alone,
{
    let (ls, gs) = choose|losses: Seq<L>, gradients: Seq<G>| #[trigger]
        all_taken(step, start, score, back, rows, columns, 1, 0, losses, gradients)
            && losses.len() == columns && summed(plus, zero, losses, loss) && summed(
            gather,
            gradient,
            gradients,
            total,
        );
    let ms = choose|losses: Seq<L>|
        losses.len() == columns && (forall|c: int|
            0 <= c < columns ==> lost(
                step,
                start,
                alone,
                rows,
                columns,
                c as nat,
                #[trigger] losses[c],
            )) && #[trigger] summed(plus, zero, losses, loss_alone);
    assert forall|c: int| 0 <= c < columns implies ls[c] == ms[c] by {
        let column = c as nat;
        let (l, g, m) = (ls[c], gs[c], ms[c]);
        assert((0 + c) * 1 == c);
        assert(taken(step, start, score, back, rows, columns, column, l, g));
        assert(lost(step, start, alone, rows, columns, column, m));
        let (a, x, u) = choose|states: Seq<S>, end: G, gradients: Seq<G>|
            #![trigger walked(states, step, start, rows, columns, column), walked_back(gradients, back, states, end, columns, column)]
            walked(states, step, start, rows, columns, column) && scored_with_gradient(
                score,
                states.last(),
                column,
                l,
                end,
            ) && walked_back(gradients, back, states, end, columns, column) && gradients[0] == g;
        let b = choose|states: Seq<S>| #[trigger]
            walked(states, step, start, rows, columns, column) && call_ensures(
                alone,
                (&states.last(), column as usize),
                m,
            );
        assert forall|t: int| 0 <= t < a.len() implies a[t] == b[t] by {
            lemma_walks_agree(step, start, rows, columns, column, a, b, t);
        }
        assert(a =~= b);
        assert(scored_with_gradient(score, a.last(), column, l, x));
        assert(call_ensures(alone, (&a.last(), column as usize), m));
    }
    assert(ls =~= ms);
    let us = choose|totals: Seq<L>| #[trigger]
        running(plus, zero, ls, totals) && totals.last() == loss;
    let vs = choose|totals: Seq<L>| #[trigger]
        running(plus, zero, ls, totals) && totals.last() == loss_alone;
    assert(ls.take(ls.len() as int) =~= ls);
    lemma_totals_agree(plus, plus_of, plus_of, zero, zero, ls, ls, us, vs, ls.len() as int);
}

/// However a batch is walked, whole or in halves, its loss is that of all its columns, and
/// their gradient is added to the one given.
pub proof fn law_halving_changes_nothing<S, L, G, A, F, K, B, P, H, W, T, M>(
    step: F,
    start: S,
    score: K,
    back: B,
    plus: P,
    gather: H,
    whole: W,
    halves: T,
    merge: M,
    zero: L,
    rows: nat,
    batch: usize,
    plus_of: spec_fn(L, L) -> L,
    gather_of: spec_fn(A, G) -> A,
    merge_of: spec_fn(A, A) -> A,
    none: A,
    given: A,
    loss: L,
    total: A,
    loss_given: L,
    total_given: A,
) where
    F: Fn(&S, usize, bool) -> S,
    K: Fn(&S, usize) -> (L, G),
    B: Fn(G, &S, usize, bool) -> G,
    P: Fn(L, L) -> L,
    H: Fn(A, G) -> A,
    W: Fn(A, usize, usize) -> (L, A),
    T: Fn(usize, usize) -> ((L, A), (L, A)),
    M: Fn(A, A, A) -> A,

    requires
        one_walk(step, score, back),
        adds_up(plus, plus_of, plus_of, zero),
        adds_up(gather, gather_of, merge_of, none),
        forall|a: A, b: A, c: A, d: A| #[trigger]
            call_ensures(merge, (a, b, c), d) ==> d == merge_of(a, merge_of(b, c)),
        forall|gradient: A, l: L, t: A| #[trigger]
            call_ensures(whole, (gradient, 0usize, batch), (l, t)) ==> ranged(
                step,
                start,
                score,
                back,
                plus,
                gather,
                zero,
                gradient,
                rows,
                batch as nat,
                1,
                0,
                batch as int,
                l,
                t,
            ),
        forall|loss_a: L, total_a: A, loss_b: L, total_b: A| #[trigger]
            halved(halves, batch, loss_a, total_a, loss_b, total_b) ==> ranged(
                step,
                start,
                score,
                back,
                plus,
                gather,
                zero,
                none,
                rows,
                batch as nat,
                1,
                0,
                batch as int / 2,
                loss_a,
                total_a,
            ) && ranged(
                step,
                start,
                score,
                back,
                plus,
                gather,
                zero,
                none,
                rows,
                batch as nat,
                1,
                batch as int / 2,
                batch as int,
                loss_b,
                total_b,
            ),
        ranged(
            step,
            start,
            score,
            back,
            plus,
            gather,
            zero,
            none,
            rows,
            batch as nat,
            1,
            0,
            batch as int,
            loss,
            total,
        ),
        whole_or_halves(whole, halves, plus, merge, given, batch, loss_given, total_given),
    ensures
        loss_given == loss,
        total_given == merge_of(given, total),
{
    let columns = batch as nat;
    if batch >= 64 {
        let middle = batch as int / 2;
        let (loss_a, total_a, loss_b, total_b) = choose|
            loss_a: L,
            total_a: A,
            loss_b: L,
            total_b: A,
        | #[trigger]
            halved(halves, batch, loss_a, total_a, loss_b, total_b) && call_ensures(
                plus,
                (loss_a, loss_b),
                loss_given,
            ) && call_ensures(merge, (given, total_a, total_b), total_given);
        law_halves_add_up_to_the_whole(
            step,
            start,
            score,
            back,
            plus,
            gather,
            zero,
            rows,
            columns,
            1,
            0,
            middle,
            batch as int,
            plus_of,
            gather_of,
            merge_of,
            none,
            none,
            loss_a,
            total_a,
            loss_b,
            total_b,
            loss,
            total,
        );
    } else {
        law_gradients_are_added(
            step,
            start,
            score,
            back,
            plus,
            gather,
            zero,
            rows,
            columns,
            1,
            0,
            batch as int,
            plus_of,
            gather_of,
            merge_of,
            none,
            given,
            loss,
            total,
            loss_given,
            total_given,
        );
    }
}

} // verus!
