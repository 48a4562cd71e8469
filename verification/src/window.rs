//! Gradients of a card in one walk.
//!
//! The loss of a card is the sum of the losses of its reviews. Its gradient can be found
//! item by item, one walk back for each scored review, or in one walk back that takes up
//! the gradient of each review's loss as it passes it. In exact arithmetic both give the
//! same, whatever the model is, since walking back is additive.

use vstd::prelude::*;

verus! {

/// How values of a type are added up.
#[verifier::reject_recursive_types(G)]
pub struct Sums<G> {
    /// The sum of nothing.
    pub zero: G,
    /// The sum of two.
    pub plus: spec_fn(G, G) -> G,
}

impl<G> Sums<G> {
    /// Whether the order in which values are added does not matter, and `zero` adds
    /// nothing.
    pub open spec fn lawful(self) -> bool {
        &&& forall|a: G, b: G| #[trigger] (self.plus)(a, b) == (self.plus)(b, a)
        &&& forall|a: G, b: G, c: G| #[trigger]
            (self.plus)((self.plus)(a, b), c) == (self.plus)(a, (self.plus)(b, c))
        &&& forall|a: G| #[trigger] (self.plus)(a, self.zero) == a
    }

    /// The sum of `f` over `from` to `to`.
    pub open spec fn sum(self, f: spec_fn(int) -> G, from: int, to: int) -> G
        decreases to - from,
    {
        if to <= from {
            self.zero
        } else {
            (self.plus)(self.sum(f, from, to - 1), f(to - 1))
        }
    }

    /// Adding up term by term.
    proof fn lemma_sum_of_sums(
        self,
        f: spec_fn(int) -> G,
        g: spec_fn(int) -> G,
        h: spec_fn(int) -> G,
        from: int,
        to: int,
    )
        requires
            self.lawful(),
            forall|i: int| from <= i < to ==> #[trigger] h(i) == (self.plus)(f(i), g(i)),
        ensures
            self.sum(h, from, to) == (self.plus)(self.sum(f, from, to), self.sum(g, from, to)),
        decreases to - from,
    {
        if to > from {
            self.lemma_sum_of_sums(f, g, h, from, to - 1);
            let a = self.sum(f, from, to - 1);
            let b = self.sum(g, from, to - 1);
            let c = f(to - 1);
            let d = g(to - 1);
            let p = self.plus;
            assert(h(to - 1) == p(c, d));
            assert(p(p(a, b), p(c, d)) == p(a, p(b, p(c, d))));
            assert(p(b, p(c, d)) == p(p(b, c), d));
            assert(p(b, c) == p(c, b));
            assert(p(p(c, b), d) == p(c, p(b, d)));
            assert(p(a, p(c, p(b, d))) == p(p(a, c), p(b, d)));
        } else {
            assert((self.plus)(self.zero, self.zero) == self.zero);
        }
    }

    /// The same terms have the same sum.
    proof fn lemma_same_sum(self, f: spec_fn(int) -> G, g: spec_fn(int) -> G, from: int, to: int)
        requires
            forall|i: int| from <= i < to ==> #[trigger] f(i) == g(i),
        ensures
            self.sum(f, from, to) == self.sum(g, from, to),
        decreases to - from,
    {
        if to > from {
            self.lemma_same_sum(f, g, from, to - 1);
            assert(f(to - 1) == g(to - 1));
        }
    }

    /// The first term can be added last.
    proof fn lemma_first_term(self, f: spec_fn(int) -> G, from: int, to: int)
        requires
            self.lawful(),
            from < to,
        ensures
            self.sum(f, from, to) == (self.plus)(self.sum(f, from + 1, to), f(from)),
        decreases to - from,
    {
        let p = self.plus;
        if to == from + 1 {
            assert(self.sum(f, from, from) == self.zero);
            assert(self.sum(f, from + 1, to) == self.zero);
        } else {
            self.lemma_first_term(f, from, to - 1);
            let rest = self.sum(f, from + 1, to - 1);
            assert(p(p(rest, f(from)), f(to - 1)) == p(rest, p(f(from), f(to - 1))));
            assert(p(f(from), f(to - 1)) == p(f(to - 1), f(from)));
            assert(p(rest, p(f(to - 1), f(from))) == p(p(rest, f(to - 1)), f(from)));
        }
    }

    /// A triangle of terms can be added up by rows or by columns.
    proof fn lemma_triangle(self, x: spec_fn(int, int) -> G, n: int)
        requires
            self.lawful(),
            0 <= n,
        ensures
            self.sum(|t: int| self.sum(|j: int| x(t, j), t + 1, n), 0, n) == self.sum(
                |j: int| self.sum(|t: int| x(t, j), 0, j),
                0,
                n,
            ),
        decreases n,
    {
        let rows = |m: int| self.sum(|t: int| self.sum(|j: int| x(t, j), t + 1, m), 0, m);
        let columns = |m: int| self.sum(|j: int| self.sum(|t: int| x(t, j), 0, j), 0, m);
        if n > 0 {
            self.lemma_triangle(x, n - 1);
            let m = n - 1;
            let full = |t: int| self.sum(|j: int| x(t, j), t + 1, n);
            let short = |t: int| self.sum(|j: int| x(t, j), t + 1, m);
            let last = |t: int| x(t, m);
            assert forall|t: int| 0 <= t < m implies #[trigger] full(t) == (self.plus)(short(t), last(t)) by {
                let f = |j: int| x(t, j);
                assert(self.sum(f, t + 1, n) == (self.plus)(self.sum(f, t + 1, n - 1), f(n - 1)));
            }
            self.lemma_sum_of_sums(short, last, full, 0, m);
            assert(full(m) == self.zero);
            assert(self.sum(full, 0, n) == (self.plus)(self.sum(full, 0, m), full(m)));
            assert(self.sum(full, 0, n) == self.sum(full, 0, m));
            assert(rows(n) == self.sum(full, 0, n));
            assert(rows(m) == self.sum(short, 0, m));
            let of_column = |j: int| self.sum(|t: int| x(t, j), 0, j);
            assert(of_column(m) == self.sum(|t: int| x(t, m), 0, m));
            assert(columns(n) == (self.plus)(columns(m), of_column(m)));
            assert(columns(n) == (self.plus)(rows(m), self.sum(last, 0, m)));
        }
    }
}

/// What walking back does at each review of a card: how the gradient of the state after
/// it becomes that of the state before it, what the review's own loss adds to that, and
/// what both add to the gradient of the parameters.
#[verifier::reject_recursive_types(G)]
#[verifier::reject_recursive_types(W)]
pub struct Backward<G, W> {
    /// How gradients of states add up.
    pub states: Sums<G>,
    /// How gradients of the parameters add up.
    pub weights: Sums<W>,
    /// The gradient of the state before review `t`, from that of the state after it.
    pub back: spec_fn(int, G) -> G,
    /// The gradient of the state before review `t`, from the loss of the review.
    pub loss: spec_fn(int) -> G,
    /// The gradient of the parameters at review `t`, from that of the state after it.
    pub weight: spec_fn(int, G) -> W,
    /// The gradient of the parameters at review `t`, from the loss of the review.
    pub weight_loss: spec_fn(int) -> W,
}

impl<G, W> Backward<G, W> {
    /// Whether walking back is additive.
    pub open spec fn additive(self) -> bool {
        &&& self.states.lawful()
        &&& self.weights.lawful()
        &&& forall|t: int, a: G, b: G| #[trigger]
            (self.back)(t, (self.states.plus)(a, b)) == (self.states.plus)(
                (self.back)(t, a),
                (self.back)(t, b),
            )
        &&& forall|t: int| #[trigger] (self.back)(t, self.states.zero) == self.states.zero
        &&& forall|t: int, a: G, b: G| #[trigger]
            (self.weight)(t, (self.states.plus)(a, b)) == (self.weights.plus)(
                (self.weight)(t, a),
                (self.weight)(t, b),
            )
        &&& forall|t: int| #[trigger] (self.weight)(t, self.states.zero) == self.weights.zero
    }

    /// The gradient of the state before review `t`, in one walk back over `n` reviews.
    pub open spec fn in_one_walk(self, t: int, n: int) -> G
        decreases n - t,
    {
        if t >= n {
            self.states.zero
        } else {
            (self.states.plus)((self.back)(t, self.in_one_walk(t + 1, n)), (self.loss)(t))
        }
    }

    /// The gradient of the state before review `t`, of the loss of review `j` alone.
    pub open spec fn of_item(self, t: int, j: int) -> G
        decreases j - t,
    {
        if t >= j {
            (self.loss)(j)
        } else {
            (self.back)(t, self.of_item(t + 1, j))
        }
    }

    /// The gradient of the parameters, in one walk back over `n` reviews.
    pub open spec fn card_gradient(self, n: int) -> W {
        self.weights.sum(
            |t: int|
                (self.weights.plus)(
                    (self.weight)(t, self.in_one_walk(t + 1, n)),
                    (self.weight_loss)(t),
                ),
            0,
            n,
        )
    }

    /// The gradient of the parameters, of the loss of review `j` alone.
    pub open spec fn item_gradient(self, j: int) -> W {
        (self.weights.plus)(
            self.weights.sum(|t: int| (self.weight)(t, self.of_item(t + 1, j)), 0, j),
            (self.weight_loss)(j),
        )
    }

    proof fn lemma_states(self, t: int, n: int)
        requires
            self.additive(),
            t <= n,
        ensures
            self.in_one_walk(t, n) == self.states.sum(|j: int| self.of_item(t, j), t, n),
        decreases n - t,
    {
        if t < n {
            self.lemma_states(t + 1, n);
            let next = |j: int| self.of_item(t + 1, j);
            let here = |j: int| self.of_item(t, j);
            self.lemma_back_sum(t, n);
            let backed = |j: int| (self.back)(t, self.of_item(t + 1, j));
            self.states.lemma_same_sum(here, backed, t + 1, n);
            self.states.lemma_first_term(here, t, n);
            assert(here(t) == (self.loss)(t));
            assert(self.in_one_walk(t, n) == (self.states.plus)(
                (self.back)(t, self.states.sum(next, t + 1, n)),
                (self.loss)(t),
            ));
        }
    }

    proof fn lemma_back_sum(self, t: int, n: int)
        requires
            self.additive(),
        ensures
            (self.back)(t, self.states.sum(|j: int| self.of_item(t + 1, j), t + 1, n))
                == self.states.sum(|j: int| (self.back)(t, self.of_item(t + 1, j)), t + 1, n),
        decreases n - t,
    {
        let next = |j: int| self.of_item(t + 1, j);
        let backed = |j: int| (self.back)(t, self.of_item(t + 1, j));
        if n > t + 1 {
            self.lemma_back_sum(t, n - 1);
            assert(self.states.sum(next, t + 1, n) == (self.states.plus)(
                self.states.sum(next, t + 1, n - 1),
                next(n - 1),
            ));
            assert(backed(n - 1) == (self.back)(t, next(n - 1)));
        }
    }

    proof fn lemma_weight_sum(self, t: int, n: int)
        requires
            self.additive(),
        ensures
            (self.weight)(t, self.states.sum(|j: int| self.of_item(t + 1, j), t + 1, n))
                == self.weights.sum(|j: int| (self.weight)(t, self.of_item(t + 1, j)), t + 1, n),
        decreases n - t,
    {
        let next = |j: int| self.of_item(t + 1, j);
        let weighed = |j: int| (self.weight)(t, self.of_item(t + 1, j));
        if n > t + 1 {
            self.lemma_weight_sum(t, n - 1);
            assert(self.states.sum(next, t + 1, n) == (self.states.plus)(
                self.states.sum(next, t + 1, n - 1),
                next(n - 1),
            ));
            assert(weighed(n - 1) == (self.weight)(t, next(n - 1)));
        }
    }
}

/// The gradient of a card's loss that one walk back gives is the sum of the gradients of
/// the losses of its items.
pub proof fn law_one_walk_gives_the_sum_of_item_gradients<G, W>(b: Backward<G, W>, n: int)
    requires
        b.additive(),
        0 <= n,
    ensures
        b.card_gradient(n) == b.weights.sum(|j: int| b.item_gradient(j), 0, n),
{
    let x = |t: int, j: int| (b.weight)(t, b.of_item(t + 1, j));
    let steps = |t: int| (b.weight)(t, b.in_one_walk(t + 1, n));
    let rows = |t: int| b.weights.sum(|j: int| x(t, j), t + 1, n);
    let losses = |t: int| (b.weight_loss)(t);
    let both = |t: int|
        (b.weights.plus)((b.weight)(t, b.in_one_walk(t + 1, n)), (b.weight_loss)(t));
    assert forall|t: int| 0 <= t < n implies #[trigger] steps(t) == rows(t) by {
        b.lemma_states(t + 1, n);
        b.lemma_weight_sum(t, n);
        b.weights.lemma_same_sum(
            |j: int| (b.weight)(t, b.of_item(t + 1, j)),
            |j: int| x(t, j),
            t + 1,
            n,
        );
    }
    b.weights.lemma_same_sum(steps, rows, 0, n);
    b.weights.lemma_sum_of_sums(steps, losses, both, 0, n);
    b.weights.lemma_triangle(x, n);
    let columns = |j: int| b.weights.sum(|t: int| x(t, j), 0, j);
    let items = |j: int| b.item_gradient(j);
    assert forall|j: int| 0 <= j < n implies #[trigger] items(j) == (b.weights.plus)(columns(j), losses(j)) by {
        b.weights.lemma_same_sum(
            |t: int| (b.weight)(t, b.of_item(t + 1, j)),
            |t: int| x(t, j),
            0,
            j,
        );
    }
    b.weights.lemma_sum_of_sums(columns, losses, items, 0, n);
}

/// What walking a card back does at review `t`: to the gradient of the state and to that of
/// the parameters.
pub open spec fn card_step<G, W>(b: Backward<G, W>, t: int, flow: (G, W)) -> (G, W) {
    (
        (b.states.plus)((b.back)(t, flow.0), (b.loss)(t)),
        (b.weights.plus)(flow.1, (b.weights.plus)((b.weight)(t, flow.0), (b.weight_loss)(t))),
    )
}

/// What walking an item back does at review `t` of its history.
pub open spec fn item_step<G, W>(b: Backward<G, W>, t: int, flow: (G, W)) -> (G, W) {
    ((b.back)(t, flow.0), (b.weights.plus)(flow.1, (b.weight)(t, flow.0)))
}

/// Walking a card back gives the gradient of its loss: `walk_back` ends with the sum of
/// what each review adds, where `back` takes up the gradient of each review's loss as it
/// passes it.
pub proof fn law_walking_a_card_back_gives_its_gradient<S, G, W, F>(
    b: Backward<G, W>,
    back: F,
    states: Seq<S>,
    columns: nat,
    column: nat,
    flows: Seq<(G, W)>,
) where F: Fn((G, W), &S, usize, bool) -> (G, W)
    requires
        b.additive(),
        states.len() > 0,
        crate::walk::walked_back(
            flows,
            back,
            states,
            (b.states.zero, b.weights.zero),
            columns,
            column,
        ),
        forall|fs: Seq<(G, W)>, t: int|
            0 <= t < states.len() - 1 && #[trigger] crate::walk::stepped_back(
                fs,
                back,
                states,
                columns,
                column,
                t,
            ) ==> fs[t] == card_step(b, t, fs[t + 1]),
    ensures
        flows[0].0 == b.in_one_walk(0, states.len() - 1),
        flows[0].1 == b.card_gradient(states.len() - 1),
{
    lemma_card_flow(b, back, states, columns, column, flows, 0);
}

spec fn card_terms<G, W>(b: Backward<G, W>, n: int) -> spec_fn(int) -> W {
    |t: int|
        (b.weights.plus)((b.weight)(t, b.in_one_walk(t + 1, n)), (b.weight_loss)(t))
}

proof fn lemma_card_flow<S, G, W, F>(
    b: Backward<G, W>,
    back: F,
    states: Seq<S>,
    columns: nat,
    column: nat,
    flows: Seq<(G, W)>,
    t: int,
) where F: Fn((G, W), &S, usize, bool) -> (G, W)
    requires
        b.additive(),
        0 <= t < states.len(),
        crate::walk::walked_back(
            flows,
            back,
            states,
            (b.states.zero, b.weights.zero),
            columns,
            column,
        ),
        forall|fs: Seq<(G, W)>, t: int|
            0 <= t < states.len() - 1 && #[trigger] crate::walk::stepped_back(
                fs,
                back,
                states,
                columns,
                column,
                t,
            ) ==> fs[t] == card_step(b, t, fs[t + 1]),
    ensures
        flows[t].0 == b.in_one_walk(t, states.len() - 1),
        flows[t].1 == b.weights.sum(card_terms(b, states.len() - 1), t, states.len() - 1),
    decreases states.len() - t,
{
    let n = states.len() - 1;
    if t < n {
        lemma_card_flow(b, back, states, columns, column, flows, t + 1);
        assert(crate::walk::stepped_back(flows, back, states, columns, column, t));
        assert(flows[t] == card_step(b, t, flows[t + 1]));
        b.weights.lemma_first_term(card_terms(b, n), t, n);
    }
    assert(b.card_gradient(n) == b.weights.sum(card_terms(b, n), 0, n)) by {
        b.weights.lemma_same_sum(
            |u: int|
                (b.weights.plus)((b.weight)(u, b.in_one_walk(u + 1, n)), (b.weight_loss)(u)),
            card_terms(b, n),
            0,
            n,
        );
    }
}

/// Walking an item back gives the gradient of its loss, where `walk_back` begins with what
/// the loss of the item's current review gives.
pub proof fn law_walking_an_item_back_gives_its_gradient<S, G, W, F>(
    b: Backward<G, W>,
    back: F,
    states: Seq<S>,
    columns: nat,
    column: nat,
    flows: Seq<(G, W)>,
) where F: Fn((G, W), &S, usize, bool) -> (G, W)
    requires
        b.additive(),
        states.len() > 0,
        crate::walk::walked_back(
            flows,
            back,
            states,
            ((b.loss)(states.len() - 1), (b.weight_loss)(states.len() - 1)),
            columns,
            column,
        ),
        forall|fs: Seq<(G, W)>, t: int|
            0 <= t < states.len() - 1 && #[trigger] crate::walk::stepped_back(
                fs,
                back,
                states,
                columns,
                column,
                t,
            ) ==> fs[t] == item_step(b, t, fs[t + 1]),
    ensures
        flows[0].0 == b.of_item(0, states.len() - 1),
        flows[0].1 == b.item_gradient(states.len() - 1),
{
    lemma_item_flow(b, back, states, columns, column, flows, 0);
}

spec fn item_terms<G, W>(b: Backward<G, W>, j: int) -> spec_fn(int) -> W {
    |t: int| (b.weight)(t, b.of_item(t + 1, j))
}

proof fn lemma_item_flow<S, G, W, F>(
    b: Backward<G, W>,
    back: F,
    states: Seq<S>,
    columns: nat,
    column: nat,
    flows: Seq<(G, W)>,
    t: int,
) where F: Fn((G, W), &S, usize, bool) -> (G, W)
    requires
        b.additive(),
        0 <= t < states.len(),
        crate::walk::walked_back(
            flows,
            back,
            states,
            ((b.loss)(states.len() - 1), (b.weight_loss)(states.len() - 1)),
            columns,
            column,
        ),
        forall|fs: Seq<(G, W)>, t: int|
            0 <= t < states.len() - 1 && #[trigger] crate::walk::stepped_back(
                fs,
                back,
                states,
                columns,
                column,
                t,
            ) ==> fs[t] == item_step(b, t, fs[t + 1]),
    ensures
        flows[t].0 == b.of_item(t, states.len() - 1),
        flows[t].1 == (b.weights.plus)(
            b.weights.sum(item_terms(b, states.len() - 1), t, states.len() - 1),
            (b.weight_loss)(states.len() - 1),
        ),
    decreases states.len() - t,
{
    let j = states.len() - 1;
    let p = b.weights.plus;
    let last = (b.weight_loss)(j);
    if t < j {
        lemma_item_flow(b, back, states, columns, column, flows, t + 1);
        assert(crate::walk::stepped_back(flows, back, states, columns, column, t));
        assert(flows[t] == item_step(b, t, flows[t + 1]));
        b.weights.lemma_first_term(item_terms(b, j), t, j);
        let rest = b.weights.sum(item_terms(b, j), t + 1, j);
        let term = (b.weight)(t, b.of_item(t + 1, j));
        assert(p(p(rest, last), term) == p(rest, p(last, term)));
        assert(p(last, term) == p(term, last));
        assert(p(rest, p(term, last)) == p(p(rest, term), last));
    } else {
        assert(p(last, b.weights.zero) == last);
        assert(p(b.weights.zero, last) == p(last, b.weights.zero));
    }
    assert(b.item_gradient(j) == p(b.weights.sum(item_terms(b, j), 0, j), last)) by {
        b.weights.lemma_same_sum(
            |u: int| (b.weight)(u, b.of_item(u + 1, j)),
            item_terms(b, j),
            0,
            j,
        );
    }
}

} // verus!
