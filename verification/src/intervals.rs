//! Penalties on schedules: on intervals that grow too fast, and on intervals that are too
//! short.

use crate::double::Double;
use crate::dual::Dual35;
use crate::penalty::{penalizes_schedule, schedule_penalty};
use vstd::prelude::*;

verus! {

/// 1 day, as a binary64 number.
pub open spec fn one_day() -> Double {
    Double { bits: 0x3ff0_0000_0000_0000 }
}

/// Whether `interval` may give interval `k` for state `k`, and `next` state `k + 1`.
pub open spec fn reviewed_at<S, F: Fn(&S) -> Dual35, N: Fn(S, Dual35) -> S>(
    interval: F,
    next: N,
    states: Seq<S>,
    intervals: Seq<Dual35>,
    k: int,
) -> bool {
    &&& call_ensures(interval, (&states[k],), intervals[k])
    &&& call_ensures(next, (states[k], intervals[k]), states[k + 1])
}

/// Whether `intervals` may be those of a schedule that begins in state `start`: each
/// review comes after the interval that the state asks for, and changes the state.
pub open spec fn scheduled<S, F: Fn(&S) -> Dual35, N: Fn(S, Dual35) -> S>(
    interval: F,
    next: N,
    start: S,
    states: Seq<S>,
    intervals: Seq<Dual35>,
) -> bool {
    &&& states.len() == intervals.len() + 1
    &&& states[0] == start
    &&& forall|k: int|
        0 <= k < intervals.len() ==> #[trigger] reviewed_at(interval, next, states, intervals, k)
}

/// The intervals of a schedule of `n` reviews. `interval` gives the interval that a state
/// asks for, and `next` the state after a review.
pub fn schedule<S, F: Fn(&S) -> Dual35, N: Fn(S, Dual35) -> S>(
    start: S,
    n: usize,
    interval: &F,
    next: &N,
) -> (r: Vec<Dual35>)
    requires
        forall|state: &S| #[trigger] call_requires(*interval, (state,)),
        forall|state: S, t: Dual35| #[trigger] call_requires(*next, (state, t)),
    ensures
        r@.len() == n,
        exists|states: Seq<S>| #[trigger] scheduled(*interval, *next, start, states, r@),
{
    let ghost first = start;
    let mut state = start;
    let mut intervals: Vec<Dual35> = Vec::with_capacity(n);
    let ghost mut states: Seq<S> = seq![state];
    while intervals.len() < n
        invariant
            intervals@.len() <= n,
            forall|state: &S| #[trigger] call_requires(*interval, (state,)),
            forall|state: S, t: Dual35| #[trigger] call_requires(*next, (state, t)),
            scheduled(*interval, *next, first, states, intervals@),
            states.last() == state,
        decreases n - intervals@.len(),
    {
        let ghost states_before = states;
        let ghost intervals_before = intervals@;
        let t = interval(&state);
        state = next(state, t);
        intervals.push(t);
        proof {
            states = states.push(state);
            assert forall|k: int| 0 <= k < intervals@.len() implies #[trigger] reviewed_at(
                *interval,
                *next,
                states,
                intervals@,
                k,
            ) by {
                if k < intervals_before.len() {
                    assert(reviewed_at(*interval, *next, states_before, intervals_before, k));
                }
            }
        }
    }
    intervals
}

/// Whether interval `k` follows one of a day or more.
pub open spec fn follows_a_day(intervals: Seq<Dual35>, k: int) -> bool {
    k >= 1 && one_day().at_most(intervals[k - 1].value)
}

/// Whether `ratios[k]` may be the ratio of interval `k` to the one before it, where that is
/// a day or more; there is none elsewhere.
pub open spec fn ratio_at<D: Fn(Dual35, Dual35) -> Dual35>(
    div: D,
    intervals: Seq<Dual35>,
    ratios: Seq<Option<Dual35>>,
    k: int,
) -> bool {
    if follows_a_day(intervals, k) {
        ratios[k] is Some && call_ensures(div, (intervals[k], intervals[k - 1]), ratios[k]->0)
    } else {
        ratios[k] is None
    }
}

/// The first of the largest ratios; none where there is none, or none that is a number
/// above negative infinity.
pub open spec fn fastest(ratios: Seq<Option<Dual35>>) -> Option<Dual35>
    decreases ratios.len(),
{
    if ratios.len() == 0 {
        None
    } else {
        let before = fastest(ratios.drop_last());
        if ratios.last() is Some && best_of(before).below((ratios.last()->0).value) {
            ratios.last()
        } else {
            before
        }
    }
}

/// What a ratio must exceed to be the largest so far.
pub open spec fn best_of(ratio: Option<Dual35>) -> Double {
    match ratio {
        Some(ratio) => ratio.value,
        None => Double { bits: 0xfff0_0000_0000_0000 },
    }
}

/// The ratio that the fastest growth of a schedule is measured by is one of its ratios, and
/// none of its ratios is larger.
pub proof fn law_fastest_growth_is_the_largest(ratios: Seq<Option<Dual35>>, j: int)
    requires
        0 <= j < ratios.len(),
        ratios[j] is Some,
    ensures
        !best_of(fastest(ratios)).below((ratios[j]->0).value),
        fastest(ratios) is Some ==> ratios.contains(fastest(ratios)),
    decreases ratios.len(),
{
    let rest = ratios.drop_last();
    if j < rest.len() {
        law_fastest_growth_is_the_largest(rest, j);
        if fastest(rest) is Some && rest.contains(fastest(rest)) {
            let i = choose|i: int| 0 <= i < rest.len() && rest[i] == fastest(rest);
            assert(ratios[i] == fastest(rest));
        }
    } else {
        lemma_fastest_is_one(rest);
        if fastest(rest) is Some {
            let i = choose|i: int| 0 <= i < rest.len() && rest[i] == fastest(rest);
            assert(ratios[i] == fastest(rest));
        }
    }
    assert(ratios.last() == ratios[ratios.len() - 1]);
}

proof fn lemma_fastest_is_one(ratios: Seq<Option<Dual35>>)
    ensures
        fastest(ratios) is Some ==> ratios.contains(fastest(ratios)),
    decreases ratios.len(),
{
    if ratios.len() > 0 {
        let rest = ratios.drop_last();
        lemma_fastest_is_one(rest);
        if fastest(rest) is Some {
            let i = choose|i: int| 0 <= i < rest.len() && rest[i] == fastest(rest);
            assert(ratios[i] == fastest(rest));
        }
        assert(ratios.last() == ratios[ratios.len() - 1]);
    }
}

/// Whether `ratios` may be the ratios of a schedule.
pub open spec fn ratios_of<D: Fn(Dual35, Dual35) -> Dual35>(
    div: D,
    intervals: Seq<Dual35>,
    ratios: Seq<Option<Dual35>>,
) -> bool {
    &&& ratios.len() == intervals.len()
    &&& forall|k: int| 0 <= k < ratios.len() ==> #[trigger] ratio_at(div, intervals, ratios, k)
}

/// How fast the intervals of a schedule grow: the largest ratio of an interval to the one
/// before it, of those that follow an interval of a day or more.
pub fn fastest_growth<D: Fn(Dual35, Dual35) -> Dual35>(intervals: &Vec<Dual35>, div: &D) -> (r:
    Option<Dual35>)
    requires
        forall|a: Dual35, b: Dual35| #[trigger] call_requires(*div, (a, b)),
    ensures
        exists|ratios: Seq<Option<Dual35>>| #[trigger]
            ratios_of(*div, intervals@, ratios) && r == fastest(ratios),
{
    let mut best: Option<Dual35> = None;
    let mut best_value = Double::from_bits(0xfff0_0000_0000_0000);
    let ghost mut ratios: Seq<Option<Dual35>> = Seq::empty();
    let mut k: usize = 0;
    while k < intervals.len()
        invariant
            k <= intervals@.len(),
            forall|a: Dual35, b: Dual35| #[trigger] call_requires(*div, (a, b)),
            ratios.len() == k,
            forall|j: int| 0 <= j < k ==> #[trigger] ratio_at(*div, intervals@, ratios, j),
            best == fastest(ratios),
            best_value == best_of(best),
        decreases intervals@.len() - k,
    {
        let ghost before = ratios;
        let mut ratio: Option<Dual35> = None;
        if k >= 1 && Double::from_bits(0x3ff0_0000_0000_0000).le(intervals[k - 1].value) {
            let growth = div(intervals[k], intervals[k - 1]);
            ratio = Some(growth);
            if best_value.lt(growth.value) {
                best_value = growth.value;
                best = Some(growth);
            }
        }
        proof {
            ratios = ratios.push(ratio);
            assert(ratios.drop_last() =~= before);
            assert(ratios.last() == ratio);
            assert forall|j: int| 0 <= j < k + 1 implies #[trigger] ratio_at(
                *div,
                intervals@,
                ratios,
                j,
            ) by {
                if j < k {
                    assert(ratio_at(*div, intervals@, before, j));
                }
            }
        }
        k += 1;
    }
    assert(ratios_of(*div, intervals@, ratios));
    best
}

/// The penalty on a schedule whose intervals grow fast: what `square` makes of the largest
/// ratio, and 0 where there is none.
pub fn interval_growth_penalty<D, Q>(intervals: &Vec<Dual35>, div: &D, square: &Q) -> (r:
    Dual35) where D: Fn(Dual35, Dual35) -> Dual35, Q: Fn(Dual35) -> Dual35
    requires
        forall|a: Dual35, b: Dual35| #[trigger] call_requires(*div, (a, b)),
        forall|a: Dual35| #[trigger] call_requires(*square, (a,)),
    ensures
        exists|ratios: Seq<Option<Dual35>>| #[trigger]
            ratios_of(*div, intervals@, ratios) && match fastest(ratios) {
                Some(ratio) => call_ensures(*square, (ratio,), r),
                None => r.is_constant(Double { bits: 0 }),
            },
{
    match fastest_growth(intervals, div) {
        Some(ratio) => square(ratio),
        None => Dual35::constant(Double::from_bits(0)),
    }
}

/// Whether an interval is shorter than a day.
pub open spec fn is_short() -> spec_fn(Dual35) -> bool {
    |t: Dual35| t.value.below(one_day())
}

/// Whether `r` may be the penalty on the short intervals of a schedule: what `penalty`
/// makes of their sum and number. There is none where there are no short intervals.
pub open spec fn short_penalized<A, P>(
    add_up: A,
    penalty: P,
    intervals: Seq<Dual35>,
    r: Option<Dual35>,
) -> bool where A: Fn(Dual35, Dual35) -> Dual35, P: Fn(Dual35, usize) -> Dual35 {
    let short = intervals.filter(is_short());
    if short.len() == 0 {
        r is None
    } else {
        r is Some && exists|zero: Dual35, sum: Dual35|
            zero.is_constant(Double { bits: 0 }) && #[trigger] crate::losses::summed(
                add_up,
                zero,
                short,
                sum,
            ) && call_ensures(penalty, (sum, short.len() as usize), r->0)
    }
}

/// The penalty on the short intervals of a schedule, those of less than a day: what
/// `penalty` makes of their sum and number. There is none where there are no short
/// intervals.
pub fn short_penalty<A, P>(intervals: &Vec<Dual35>, add_up: &A, penalty: &P) -> (r: Option<
    Dual35,
>) where A: Fn(Dual35, Dual35) -> Dual35, P: Fn(Dual35, usize) -> Dual35
    requires
        forall|a: Dual35, b: Dual35| #[trigger] call_requires(*add_up, (a, b)),
        forall|a: Dual35, n: usize| n > 0 ==> #[trigger] call_requires(*penalty, (a, n)),
    ensures
        short_penalized(*add_up, *penalty, intervals@, r),
{
    let zero = Dual35::constant(Double::from_bits(0));
    let mut sum = zero;
    let mut count: usize = 0;
    let mut k: usize = 0;
    proof {
        crate::losses::lemma_no_terms::<Dual35, Dual35, A>(*add_up, zero);
        crate::picking::lemma_filter_none(intervals@, is_short());
    }
    while k < intervals.len()
        invariant
            k <= intervals@.len(),
            count <= k,
            forall|a: Dual35, b: Dual35| #[trigger] call_requires(*add_up, (a, b)),
            count == intervals@.take(k as int).filter(is_short()).len(),
            crate::losses::summed(
                *add_up,
                zero,
                intervals@.take(k as int).filter(is_short()),
                sum,
            ),
        decreases intervals@.len() - k,
    {
        let t = intervals[k];
        proof {
            crate::picking::lemma_filter_step(intervals@, k as int, is_short());
        }
        if t.value.lt(Double::from_bits(0x3ff0_0000_0000_0000)) {
            let ghost before = sum;
            sum = add_up(sum, t);
            count += 1;
            proof {
                crate::losses::lemma_one_more(
                    *add_up,
                    zero,
                    intervals@.take(k as int).filter(is_short()),
                    before,
                    t,
                    sum,
                );
            }
        }
        k += 1;
    }
    assert(intervals@.take(k as int) =~= intervals@);
    if count == 0 {
        None
    } else {
        let r = Some(penalty(sum, count));
        assert(crate::losses::summed(*add_up, zero, intervals@.filter(is_short()), sum));
        r
    }
}

/// The penalties there are.
pub open spec fn present(penalties: Seq<Option<Dual35>>) -> Seq<Dual35>
    decreases penalties.len(),
{
    if penalties.len() == 0 {
        Seq::empty()
    } else if penalties.last() is Some {
        present(penalties.drop_last()).push(penalties.last()->0)
    } else {
        present(penalties.drop_last())
    }
}

/// Whether `penalties` may be the penalties on the short intervals of schedules.
pub open spec fn all_short_penalized<A, P>(
    add_up: A,
    penalty: P,
    schedules: Seq<Vec<Dual35>>,
    penalties: Seq<Option<Dual35>>,
) -> bool where A: Fn(Dual35, Dual35) -> Dual35, P: Fn(Dual35, usize) -> Dual35 {
    &&& penalties.len() == schedules.len()
    &&& forall|i: int|
        0 <= i < schedules.len() ==> short_penalized(
            add_up,
            penalty,
            (#[trigger] schedules[i])@,
            penalties[i],
        )
}

/// The penalty on schedules with short intervals: the mean of the penalties on those that
/// have any, and 0 where none has.
pub fn short_interval_penalty<A, P, M>(
    schedules: &Vec<Vec<Dual35>>,
    add_up: &A,
    penalty: &P,
    mean: &M,
) -> (r: Dual35) where
    A: Fn(Dual35, Dual35) -> Dual35,
    P: Fn(Dual35, usize) -> Dual35,
    M: Fn(Dual35, usize) -> Dual35,

    requires
        forall|a: Dual35, b: Dual35| #[trigger] call_requires(*add_up, (a, b)),
        forall|a: Dual35, n: usize| n > 0 ==> #[trigger] call_requires(*penalty, (a, n)),
        forall|a: Dual35, n: usize| n > 0 ==> #[trigger] call_requires(*mean, (a, n)),
    ensures
        exists|penalties: Seq<Option<Dual35>>| #[trigger]
            all_short_penalized(*add_up, *penalty, schedules@, penalties) && ({
                let all = present(penalties);
                if all.len() == 0 {
                    r.is_constant(Double { bits: 0 })
                } else {
                    exists|zero: Dual35, sum: Dual35|
                        zero.is_constant(Double { bits: 0 }) && #[trigger] crate::losses::summed(
                            *add_up,
                            zero,
                            all,
                            sum,
                        ) && call_ensures(*mean, (sum, all.len() as usize), r)
                }
            }),
{
    let zero = Dual35::constant(Double::from_bits(0));
    let mut sum = zero;
    let mut count: usize = 0;
    let ghost mut penalties: Seq<Option<Dual35>> = Seq::empty();
    let mut k: usize = 0;
    proof {
        crate::losses::lemma_no_terms::<Dual35, Dual35, A>(*add_up, zero);
        assert(present(penalties) =~= Seq::empty());
    }
    while k < schedules.len()
        invariant
            k <= schedules@.len(),
            count <= k,
            forall|a: Dual35, b: Dual35| #[trigger] call_requires(*add_up, (a, b)),
            forall|a: Dual35, n: usize| n > 0 ==> #[trigger] call_requires(*penalty, (a, n)),
            penalties.len() == k,
            forall|i: int|
                0 <= i < k ==> short_penalized(
                    *add_up,
                    *penalty,
                    (#[trigger] schedules@[i])@,
                    penalties[i],
                ),
            count == present(penalties).len(),
            crate::losses::summed(*add_up, zero, present(penalties), sum),
        decreases schedules@.len() - k,
    {
        let one = short_penalty(&schedules[k], add_up, penalty);
        let ghost before = penalties;
        proof {
            penalties = penalties.push(one);
            assert(penalties.drop_last() =~= before);
            assert(penalties.last() == one);
        }
        if let Some(amount) = one {
            let ghost sum_before = sum;
            sum = add_up(sum, amount);
            count += 1;
            proof {
                crate::losses::lemma_one_more(
                    *add_up,
                    zero,
                    present(before),
                    sum_before,
                    amount,
                    sum,
                );
            }
        }
        k += 1;
    }
    assert(all_short_penalized(*add_up, *penalty, schedules@, penalties));
    if count == 0 {
        zero
    } else {
        let r = mean(sum, count);
        assert(crate::losses::summed(*add_up, zero, present(penalties), sum));
        r
    }
}

/// Whether `kept` is what is used of a penalty: 0 where it is not finite.
pub open spec fn kept_finite(penalty: Dual35, kept: Dual35) -> bool {
    if penalty.value.finite() {
        kept == penalty
    } else {
        kept.is_constant(Double { bits: 0 })
    }
}

/// What is used of a penalty: 0 where it is not finite.
pub fn keep_finite(penalty: Dual35) -> (r: Dual35)
    ensures
        kept_finite(penalty, r),
{
    if penalty.value.is_finite() {
        penalty
    } else {
        Dual35::constant(Double::from_bits(0))
    }
}

/// Whether `growth` and `short` may give penalties that `weigh` puts together to `all`.
pub open spec fn weighed<G, S, W>(
    growth: G,
    short: S,
    weigh: W,
    penalties: (Dual35, Dual35),
    kept: (Dual35, Dual35),
    all: Dual35,
) -> bool where
    G: Fn() -> Dual35,
    S: Fn() -> Dual35,
    W: Fn(Dual35, Dual35) -> Dual35,
 {
    &&& call_ensures(growth, (), penalties.0)
    &&& call_ensures(short, (), penalties.1)
    &&& kept_finite(penalties.0, kept.0)
    &&& kept_finite(penalties.1, kept.1)
    &&& call_ensures(weigh, (kept.0, kept.1), all)
}

/// The penalty on a schedule and its gradient, where it is enabled and there are enough
/// parameters, and 0 elsewhere. `growth` and `short` give the two penalties, of which what
/// is not finite is not used, and `weigh` puts them together.
pub fn schedule_penalty_value_and_grad<G, S, W>(
    enabled: bool,
    parameters: usize,
    growth: &G,
    short: &S,
    weigh: &W,
) -> (r: (Double, Vec<Double>)) where
    G: Fn() -> Dual35,
    S: Fn() -> Dual35,
    W: Fn(Dual35, Dual35) -> Dual35,

    requires
        parameters >= 36 ==> call_requires(*growth, ()) && call_requires(*short, ()),
        forall|a: Dual35, b: Dual35| #[trigger] call_requires(*weigh, (a, b)),
    ensures
        r.1@.len() == 36,
        !(enabled && parameters >= 36) ==> r.0 == (Double { bits: 0 }) && forall|i: int|
            0 <= i < 36 ==> #[trigger] r.1@[i] == (Double { bits: 0 }),
        enabled && parameters >= 36 ==> exists|
            penalties: (Dual35, Dual35),
            kept: (Dual35, Dual35),
            all: Dual35,
        |
            #[trigger] weighed(*growth, *short, *weigh, penalties, kept, all) && r.0 == if all.value.finite() {
                all.value
            } else {
                Double { bits: 0 }
            } && forall|i: int|
                0 <= i < 36 ==> #[trigger] r.1@[i] == if all.value.finite() && all.grad[i].finite() {
                    all.grad[i]
                } else {
                    Double { bits: 0 }
                },
{
    if !penalizes_schedule(enabled, parameters) {
        let none = Dual35::constant(Double::from_bits(0));
        return schedule_penalty(&none);
    }
    let p1 = growth();
    let p2 = short();
    let q1 = keep_finite(p1);
    let q2 = keep_finite(p2);
    let all = weigh(q1, q2);
    let r = schedule_penalty(&all);
    assert(weighed(*growth, *short, *weigh, (p1, p2), (q1, q2), all));
    r
}

/// A schedule grows from each interval to the next: where an interval is a day or more, the
/// one after it has a ratio, that of the later to the earlier; where it is shorter, there is
/// none, and there is none of the first.
pub proof fn law_ratios_are_of_later_to_earlier<D: Fn(Dual35, Dual35) -> Dual35>(
    div: D,
    intervals: Seq<Dual35>,
    ratios: Seq<Option<Dual35>>,
    k: int,
)
    requires
        ratios_of(div, intervals, ratios),
        0 <= k < intervals.len(),
    ensures
        ratios.len() == intervals.len(),
        k == 0 ==> ratios[k] is None,
        k > 0 && intervals[k - 1].value.below(one_day()) ==> ratios[k] is None,
        k > 0 && one_day().at_most(intervals[k - 1].value) ==> ratios[k] is Some && call_ensures(
            div,
            (intervals[k], intervals[k - 1]),
            ratios[k]->0,
        ),
{
    assert(ratio_at(div, intervals, ratios, k));
}

/// The largest ratio is the first of the largest: no ratio before it is as large.
pub proof fn law_fastest_growth_is_the_first_of_the_largest(ratios: Seq<Option<Dual35>>)
    ensures
        (forall|j: int| 0 <= j < ratios.len() ==> #[trigger] ratios[j] is None) ==> fastest(ratios)
            is None,
        fastest(ratios) is Some ==> exists|i: int|
            0 <= i < ratios.len() && #[trigger] ratios[i] == fastest(ratios) && forall|j: int|
                0 <= j < i && (#[trigger] ratios[j]) is Some && !(ratios[j]->0).value.nan()
                    ==> (ratios[j]->0).value.below((ratios[i]->0).value),
    decreases ratios.len(),
{
    if ratios.len() > 0 {
        let rest = ratios.drop_last();
        law_fastest_growth_is_the_first_of_the_largest(rest);
        if forall|j: int| 0 <= j < ratios.len() ==> #[trigger] ratios[j] is None {
            assert forall|j: int| 0 <= j < rest.len() implies #[trigger] rest[j] is None by {
                assert(rest[j] == ratios[j]);
            }
            assert(ratios[ratios.len() - 1] is None);
        }
        if fastest(ratios) is Some {
            let last = ratios.len() - 1;
            if ratios.last() is Some && best_of(fastest(rest)).below((ratios.last()->0).value) {
                assert forall|j: int|
                    0 <= j < last && (#[trigger] ratios[j]) is Some && !(ratios[j]->0).value.nan() implies (
                ratios[j]->0).value.below((ratios[last]->0).value) by {
                    assert(rest[j] == ratios[j]);
                    law_fastest_growth_is_the_largest(rest, j);
                }
                assert(ratios[last] == fastest(ratios));
            } else {
                let i = choose|i: int|
                    0 <= i < rest.len() && #[trigger] rest[i] == fastest(rest) && forall|j: int|
                        0 <= j < i && (#[trigger] rest[j]) is Some && !(rest[j]->0).value.nan()
                            ==> (rest[j]->0).value.below((rest[i]->0).value);
                assert(ratios[i] == rest[i]);
                assert forall|j: int|
                    0 <= j < i && (#[trigger] ratios[j]) is Some && !(ratios[j]->0).value.nan() implies (
                ratios[j]->0).value.below((ratios[i]->0).value) by {
                    assert(rest[j] == ratios[j]);
                }
            }
        }
    }
}

/// The intervals that are short are exactly those of less than a day; one of a day is not.
pub proof fn law_short_is_less_than_a_day(intervals: Seq<Dual35>, t: Dual35)
    ensures
        one_day().value() == vstd::arithmetic::power2::pow2(1074),
        intervals.filter(is_short()).contains(t) <==> intervals.contains(t) && !t.value.nan()
            && t.value.value() < vstd::arithmetic::power2::pow2(1074),
{
    vstd::arithmetic::power2::lemma2_to64_rest();
    vstd::arithmetic::power2::lemma_pow2_adds(52, 1022);
    let unit = 0x10_0000_0000_0000int;
    assert(1023 * unit / unit == 1023 && 1023 * unit % unit == 0);
    assert(one_day().fields() == 1023 * 0x10_0000_0000_0000);
    crate::picking::lemma_filter_picks(intervals, is_short());
}

/// The penalties that are put together are those of the schedules that have one, in order:
/// a schedule without short intervals adds none.
pub proof fn law_penalties_are_those_there_are(penalties: Seq<Option<Dual35>>, more: Option<Dual35>)
    ensures
        present(Seq::empty()) == Seq::<Dual35>::empty(),
        more matches Some(penalty) ==> present(penalties.push(more)) == present(penalties).push(
            penalty,
        ),
        more is None ==> present(penalties.push(more)) == present(penalties),
{
    assert(penalties.push(more).drop_last() =~= penalties);
}

/// A schedule's reviews follow one another: each comes after the interval that the state asks
/// for, and the next state comes of that state and that interval.
pub proof fn law_schedules_follow_their_states<S, F: Fn(&S) -> Dual35, N: Fn(S, Dual35) -> S>(
    interval: F,
    next: N,
    start: S,
    states: Seq<S>,
    intervals: Seq<Dual35>,
    k: int,
)
    requires
        scheduled(interval, next, start, states, intervals),
        0 <= k < intervals.len(),
    ensures
        states.len() == intervals.len() + 1,
        states[0] == start,
        call_ensures(interval, (&states[k],), intervals[k]),
        call_ensures(next, (states[k], intervals[k]), states[k + 1]),
{
    assert(reviewed_at(interval, next, states, intervals, k));
}

/// A penalty that is finite is used as it is, with its gradient, and one that is not adds
/// nothing.
pub proof fn law_what_is_used_of_a_penalty(penalty: Dual35, kept: Dual35)
    requires
        kept_finite(penalty, kept),
    ensures
        penalty.value.finite() ==> kept == penalty,
        !penalty.value.finite() ==> kept.value.bits == 0 && forall|i: int|
            0 <= i < 36 ==> (#[trigger] kept.grad[i]).bits == 0,
{
}

/// What the penalty on short intervals is made of: the sum of all intervals of less than a
/// day, and how many there are. Without any there is none.
pub proof fn law_what_short_intervals_cost<A, P>(
    add_up: A,
    penalty: P,
    intervals: Seq<Dual35>,
    r: Option<Dual35>,
) where A: Fn(Dual35, Dual35) -> Dual35, P: Fn(Dual35, usize) -> Dual35
    requires
        short_penalized(add_up, penalty, intervals, r),
    ensures
        ({
            let short = intervals.filter(|t: Dual35| t.value.below(one_day()));
            &&& r is None <==> short.len() == 0
            &&& r is Some ==> exists|zero: Dual35, sum: Dual35|
                zero.value.bits == 0 && #[trigger] crate::losses::summed(add_up, zero, short, sum)
                    && call_ensures(penalty, (sum, short.len() as usize), r->0)
        }),
{
    crate::picking::lemma_filters_agree(
        intervals,
        is_short(),
        |t: Dual35| t.value.below(one_day()),
    );
}

/// The penalties that are put together are that on growth and that on short intervals, in
/// this order, each as far as it is finite.
pub proof fn law_what_is_weighed_together<G, S, W>(
    growth: G,
    short: S,
    weigh: W,
    penalties: (Dual35, Dual35),
    kept: (Dual35, Dual35),
    all: Dual35,
) where G: Fn() -> Dual35, S: Fn() -> Dual35, W: Fn(Dual35, Dual35) -> Dual35
    requires
        weighed(growth, short, weigh, penalties, kept, all),
    ensures
        call_ensures(growth, (), penalties.0),
        call_ensures(short, (), penalties.1),
        penalties.0.value.finite() ==> kept.0 == penalties.0,
        penalties.1.value.finite() ==> kept.1 == penalties.1,
        !penalties.0.value.finite() ==> kept.0.value.bits == 0,
        !penalties.1.value.finite() ==> kept.1.value.bits == 0,
        call_ensures(weigh, (kept.0, kept.1), all),
{
}

} // verus!
