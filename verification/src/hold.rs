//! Holding the parts of a memory state in their ranges, where it is left open what becomes
//! of a part that is not a number.
//!
//! A number that is held is the nearest one in its range. What comes of a pattern that is
//! not a number differs between the ways in which columns of numbers are held, and even
//! between the places of a column: it is passed in.

use crate::memory::MemoryState;
use crate::single::Single;
use crate::step::{D_MAX, D_MIN, S_MAX, S_MIN};
use vstd::prelude::*;

verus! {

/// Whether `y` may come of holding `x` between two numbers: the nearest number between
/// them, or what `nan` gives where `x` is not a number.
pub open spec fn held_by<N: Fn(Single, Single, Single) -> Single>(
    nan: N,
    x: Single,
    low: Single,
    high: Single,
    y: Single,
) -> bool {
    if x.nan() {
        call_ensures(nan, (x, low, high), y)
    } else {
        y == x.held(low, high)
    }
}

/// Whether `y` may come of holding a stability in its range.
pub open spec fn stability_held<N: Fn(Single, Single, Single) -> Single>(
    nan: N,
    x: Single,
    y: Single,
) -> bool {
    held_by(nan, x, Single { bits: S_MIN }, Single { bits: S_MAX }, y)
}

/// Whether `y` may come of holding a difficulty in its range.
pub open spec fn difficulty_held<N: Fn(Single, Single, Single) -> Single>(
    nan: N,
    x: Single,
    y: Single,
) -> bool {
    held_by(nan, x, Single { bits: D_MIN }, Single { bits: D_MAX }, y)
}

/// Whether `r` may come of holding every part of a state in its range.
pub open spec fn state_held<N: Fn(Single, Single, Single) -> Single>(
    nan: N,
    state: MemoryState,
    r: MemoryState,
) -> bool {
    &&& stability_held(nan, state.stability, r.stability)
    &&& difficulty_held(nan, state.difficulty, r.difficulty)
    &&& stability_held(nan, state.stability_fast, r.stability_fast)
}

/// Whether `nan` can be asked about every pattern that is not a number.
pub open spec fn answers<N: Fn(Single, Single, Single) -> Single>(nan: N) -> bool {
    forall|x: Single, low: Single, high: Single|
        x.nan() ==> #[trigger] call_requires(nan, (x, low, high))
}

/// Holds a number between two others; `nan` says what comes of a pattern that is not a
/// number.
pub fn hold<N: Fn(Single, Single, Single) -> Single>(
    x: Single,
    low: Single,
    high: Single,
    nan: &N,
) -> (r: Single)
    requires
        answers(*nan),
    ensures
        held_by(*nan, x, low, high, r),
{
    if x.is_nan() {
        nan(x, low, high)
    } else {
        x.clamp(low, high)
    }
}

/// Holds a stability in its range.
pub fn hold_stability<N: Fn(Single, Single, Single) -> Single>(x: Single, nan: &N) -> (r: Single)
    requires
        answers(*nan),
    ensures
        stability_held(*nan, x, r),
{
    hold(x, Single::from_bits(S_MIN), Single::from_bits(S_MAX), nan)
}

/// Holds every part of a state in its range.
pub fn hold_state<N: Fn(Single, Single, Single) -> Single>(state: MemoryState, nan: &N) -> (r:
    MemoryState)
    requires
        answers(*nan),
    ensures
        state_held(*nan, state, r),
{
    MemoryState {
        stability: hold_stability(state.stability, nan),
        difficulty: hold(
            state.difficulty,
            Single::from_bits(D_MIN),
            Single::from_bits(D_MAX),
            nan,
        ),
        stability_fast: hold_stability(state.stability_fast, nan),
    }
}

/// Whether `y` is between two numbers, or is what `nan` may give for a pattern that is not
/// a number.
pub open spec fn reached_by<N: Fn(Single, Single, Single) -> Single>(
    nan: N,
    low: Single,
    high: Single,
    y: Single,
) -> bool {
    ||| low.at_most(y) && y.at_most(high)
    ||| exists|x: Single| x.nan() && #[trigger] call_ensures(nan, (x, low, high), y)
}

/// Whether every part of a state is in its range, or is what `nan` may give for a pattern
/// that is not a number.
pub open spec fn reached<N: Fn(Single, Single, Single) -> Single>(nan: N, state: MemoryState) -> bool {
    let s_min = Single { bits: S_MIN };
    let s_max = Single { bits: S_MAX };
    &&& reached_by(nan, s_min, s_max, state.stability)
    &&& reached_by(nan, Single { bits: D_MIN }, Single { bits: D_MAX }, state.difficulty)
    &&& reached_by(nan, s_min, s_max, state.stability_fast)
}

/// A state that was held is in range, up to what `nan` gave.
pub proof fn law_held_states_are_in_range<N: Fn(Single, Single, Single) -> Single>(
    nan: N,
    state: MemoryState,
    r: MemoryState,
)
    requires
        state_held(nan, state, r),
    ensures
        reached(nan, r),
        !state.has_nan() ==> crate::step::within(r) && r == crate::step::bounded(state),
{
    crate::step::law_states_stay_in_range(state);
}

/// What holding `x` between two numbers gives, where `nan_of` is what it gives for a
/// pattern that is not a number.
pub open spec fn hold_of(
    nan_of: spec_fn(Single, Single, Single) -> Single,
    x: Single,
    low: Single,
    high: Single,
) -> Single {
    if x.nan() {
        nan_of(x, low, high)
    } else {
        x.held(low, high)
    }
}

/// What holding a stability in its range gives.
pub open spec fn stability_of(
    nan_of: spec_fn(Single, Single, Single) -> Single,
    x: Single,
) -> Single {
    hold_of(nan_of, x, Single { bits: S_MIN }, Single { bits: S_MAX })
}

/// What holding a difficulty in its range gives.
pub open spec fn difficulty_of(
    nan_of: spec_fn(Single, Single, Single) -> Single,
    x: Single,
) -> Single {
    hold_of(nan_of, x, Single { bits: D_MIN }, Single { bits: D_MAX })
}

/// What holding every part of a state in its range gives.
pub open spec fn state_of(
    nan_of: spec_fn(Single, Single, Single) -> Single,
    state: MemoryState,
) -> MemoryState {
    MemoryState {
        stability: stability_of(nan_of, state.stability),
        difficulty: difficulty_of(nan_of, state.difficulty),
        stability_fast: stability_of(nan_of, state.stability_fast),
    }
}

/// Whether `nan` gives what `nan_of` gives, and holding that again changes nothing: it is a
/// number in range, or it is not a number and stays as it is.
pub open spec fn settles<N: Fn(Single, Single, Single) -> Single>(
    nan: N,
    nan_of: spec_fn(Single, Single, Single) -> Single,
) -> bool {
    &&& forall|x: Single, low: Single, high: Single, y: Single| #[trigger]
        call_ensures(nan, (x, low, high), y) ==> y == nan_of(x, low, high)
    &&& forall|x: Single, low: Single, high: Single|
        x.nan() && low.at_most(high) ==> hold_of(
            nan_of,
            #[trigger] nan_of(x, low, high),
            low,
            high,
        ) == nan_of(x, low, high)
}

/// Whether holding a state changes nothing.
pub open spec fn kept(nan_of: spec_fn(Single, Single, Single) -> Single, state: MemoryState) -> bool {
    state_of(nan_of, state) == state
}

proof fn lemma_part_settles<N: Fn(Single, Single, Single) -> Single>(
    nan: N,
    nan_of: spec_fn(Single, Single, Single) -> Single,
    x: Single,
    low: Single,
    high: Single,
)
    requires
        settles(nan, nan_of),
        low.at_most(high),
    ensures
        hold_of(nan_of, hold_of(nan_of, x, low, high), low, high) == hold_of(nan_of, x, low, high),
{
    if !x.nan() {
        x.lemma_held(low, high);
        x.held(low, high).lemma_held(low, high);
    }
}

/// Holding a state twice is holding it once, part by part.
pub proof fn law_holding_twice_is_holding_once<N: Fn(Single, Single, Single) -> Single>(
    nan: N,
    nan_of: spec_fn(Single, Single, Single) -> Single,
    state: MemoryState,
)
    requires
        settles(nan, nan_of),
    ensures
        kept(nan_of, state_of(nan_of, state)),
{
    let s_min = Single { bits: S_MIN };
    let s_max = Single { bits: S_MAX };
    crate::step::lemma_ranges();
    lemma_part_settles(nan, nan_of, state.stability, s_min, s_max);
    lemma_part_settles(nan, nan_of, state.stability_fast, s_min, s_max);
    lemma_part_settles(
        nan,
        nan_of,
        state.difficulty,
        Single { bits: D_MIN },
        Single { bits: D_MAX },
    );
}

/// A state that holding leaves as it is is not that of a card with no state: no review from
/// it is taken to be a first one. Those of its parts that are numbers are in range.
pub proof fn law_kept_states_were_reviewed(
    nan_of: spec_fn(Single, Single, Single) -> Single,
    state: MemoryState,
)
    requires
        kept(nan_of, state),
    ensures
        !state.stability.same(Single::zero()),
        !state.has_nan() ==> crate::step::within(state),
{
    let s_min = Single { bits: S_MIN };
    let s_max = Single { bits: S_MAX };
    crate::step::lemma_ranges();
    state.stability.lemma_held(s_min, s_max);
    state.stability_fast.lemma_held(s_min, s_max);
    state.difficulty.lemma_held(Single { bits: D_MIN }, Single { bits: D_MAX });
    s_min.lemma_rank(state.stability);
    Single::zero().lemma_rank(s_min);
    state.stability.lemma_rank(Single::zero());
}

} // verus!
