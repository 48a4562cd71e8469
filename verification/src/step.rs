//! One review: which of the numbers that a review gives rise to become the new memory
//! state, and which way a gradient flows back through that choice.

use crate::double::Double;
use crate::memory::MemoryState;
use crate::single::Single;
use vstd::prelude::*;

verus! {

/// The least stability, 0.0001, as a binary32 pattern.
pub const S_MIN: u32 = 0x38d1_b717;

/// The greatest stability, 36500, as a binary32 pattern.
pub const S_MAX: u32 = 0x470e_9400;

/// The least difficulty, 1, as a binary32 pattern.
pub const D_MIN: u32 = 0x3f80_0000;

/// The greatest difficulty, 10, as a binary32 pattern.
pub const D_MAX: u32 = 0x4120_0000;

/// The least recall that is scored, 1e-5, as a binary32 pattern.
pub const MIN_R: u32 = 0x3727_c5ac;

/// The greatest recall that is scored, 1 - 1e-5, as a binary32 pattern.
pub const MAX_R: u32 = 0x3f7f_ff58;

/// A stability held in its range; a pattern that is not a number becomes the lower end.
pub open spec fn held_stability(stability: Single) -> Single {
    stability.held(Single { bits: S_MIN }, Single { bits: S_MAX })
}

/// A difficulty held in its range; a pattern that is not a number becomes the lower end.
pub open spec fn held_difficulty(difficulty: Single) -> Single {
    difficulty.held(Single { bits: D_MIN }, Single { bits: D_MAX })
}

/// A recall held in the range that is scored; a pattern that is not a number becomes the
/// lower end.
pub open spec fn held_recall(recall: Single) -> Single {
    recall.held(Single { bits: MIN_R }, Single { bits: MAX_R })
}

/// A state with every part held in its range.
pub open spec fn bounded(state: MemoryState) -> MemoryState {
    MemoryState {
        stability: held_stability(state.stability),
        difficulty: held_difficulty(state.difficulty),
        stability_fast: held_stability(state.stability_fast),
    }
}

/// Whether every part of a state is in its range.
pub open spec fn within(state: MemoryState) -> bool {
    let s_min = Single { bits: S_MIN };
    let s_max = Single { bits: S_MAX };
    &&& s_min.at_most(state.stability) && state.stability.at_most(s_max)
    &&& (Single { bits: D_MIN }).at_most(state.difficulty) && state.difficulty.at_most(
        Single { bits: D_MAX },
    )
    &&& s_min.at_most(state.stability_fast) && state.stability_fast.at_most(s_max)
}

/// Where the state after a review comes from.
#[derive(Clone, Copy, Debug, PartialEq, Eq, Structural)]
pub enum Source {
    /// From the state before: the review is padding.
    Padding,
    /// From the rating alone: it is the first review of a card with no state.
    Initial,
    /// From the state before and the review.
    Review,
}

/// Where the state after a review comes from. `first` says whether the review is the
/// first of its column, and `stability` is the stability before it.
pub open spec fn source_of(rating: u32, first: bool, stability: Single) -> Source {
    if rating == 0 {
        Source::Padding
    } else if first && stability.same(Single::zero()) {
        Source::Initial
    } else {
        Source::Review
    }
}

/// A rating held between 1 and 4.
pub open spec fn held_rating(rating: u32) -> u32 {
    if rating < 1 {
        1
    } else if rating > 4 {
        4
    } else {
        rating
    }
}

/// The place of the parameter that initial stability is read from.
pub fn initial_stability_place(rating: u32) -> (r: usize)
    ensures
        r == held_rating(rating) - 1,
        r < 4,
{
    if rating < 1 {
        0
    } else if rating > 4 {
        3
    } else {
        (rating - 1) as usize
    }
}

/// Where the state after a review comes from.
pub fn source(rating: u32, first: bool, stability: Single) -> (r: Source)
    ensures
        r == source_of(rating, first, stability),
{
    if rating == 0 {
        Source::Padding
    } else if first && stability.eq_number(Single::zero()) {
        Source::Initial
    } else {
        Source::Review
    }
}

/// Holds every part of a state in its range.
pub fn bound(state: MemoryState) -> (r: MemoryState)
    ensures
        r == bounded(state),
{
    MemoryState {
        stability: state.stability.clamp(Single::from_bits(S_MIN), Single::from_bits(S_MAX)),
        difficulty: state.difficulty.clamp(Single::from_bits(D_MIN), Single::from_bits(D_MAX)),
        stability_fast: state.stability_fast.clamp(
            Single::from_bits(S_MIN),
            Single::from_bits(S_MAX),
        ),
    }
}

/// The state after a review: where it came from, before it was held in range, and after.
#[derive(Clone, Copy, Debug, PartialEq)]
pub struct Reviewed {
    /// Where the state comes from.
    pub source: Source,
    /// The state before the review, held in range.
    pub last: MemoryState,
    /// The state after the review, before it is held in range.
    pub raw: MemoryState,
    /// The state after the review.
    pub state: MemoryState,
}

/// Does a review. `initial` computes the state after a first review from the rating, held
/// between 1 and 4; `update` computes the state after any other from the state before,
/// held in range, and the rating.
pub fn review<I, U>(state: MemoryState, rating: u32, first: bool, initial: I, update: U) -> (r: Reviewed) where
    I: Fn(u32) -> MemoryState,
    U: Fn(MemoryState, u32) -> MemoryState,

    requires
        source_of(rating, first, state.stability) == Source::Initial ==> call_requires(
            initial,
            (held_rating(rating),),
        ),
        source_of(rating, first, state.stability) == Source::Review ==> call_requires(
            update,
            (bounded(state), rating),
        ),
    ensures
        r.source == source_of(rating, first, state.stability),
        r.last == bounded(state),
        r.source == Source::Padding ==> r.raw == bounded(state),
        r.source == Source::Initial ==> call_ensures(initial, (held_rating(rating),), r.raw),
        r.source == Source::Review ==> call_ensures(update, (bounded(state), rating), r.raw),
        r.state == bounded(r.raw),
{
    let last = bound(state);
    let source = source(rating, first, state.stability);
    let raw = match source {
        Source::Padding => last,
        Source::Initial => initial(initial_stability_place(rating) as u32 + 1),
        Source::Review => update(last, rating),
    };
    Reviewed { source, last, raw, state: bound(raw) }
}

/// The ranges of states and recalls are ranges of numbers.
pub proof fn lemma_ranges()
    ensures
        (Single { bits: S_MIN }).at_most(Single { bits: S_MAX }),
        (Single { bits: D_MIN }).at_most(Single { bits: D_MAX }),
        (Single { bits: MIN_R }).at_most(Single { bits: MAX_R }),
        (Single { bits: S_MIN }).finite(),
        (Single { bits: S_MAX }).finite(),
        (Single { bits: D_MIN }).finite(),
        (Single { bits: D_MAX }).finite(),
{
    (Single { bits: S_MIN }).lemma_rank(Single { bits: S_MAX });
    (Single { bits: D_MIN }).lemma_rank(Single { bits: D_MAX });
    (Single { bits: MIN_R }).lemma_rank(Single { bits: MAX_R });
}

/// Whatever a review gives, the state after it is in range.
pub proof fn law_states_stay_in_range(raw: MemoryState)
    ensures
        within(bounded(raw)),
{
    lemma_ranges();
    let s_min = Single { bits: S_MIN };
    let s_max = Single { bits: S_MAX };
    raw.stability.lemma_held(s_min, s_max);
    raw.stability_fast.lemma_held(s_min, s_max);
    raw.difficulty.lemma_held(Single { bits: D_MIN }, Single { bits: D_MAX });
}

/// Padding leaves a state that is in range as it is, so that a card's state does not
/// depend on how far its column is padded.
pub proof fn law_padding_keeps_the_state(state: MemoryState)
    requires
        within(state),
    ensures
        bounded(state) == state,
{
    lemma_ranges();
    let s_min = Single { bits: S_MIN };
    let s_max = Single { bits: S_MAX };
    state.stability.lemma_held(s_min, s_max);
    state.stability_fast.lemma_held(s_min, s_max);
    state.difficulty.lemma_held(Single { bits: D_MIN }, Single { bits: D_MAX });
}

/// The factor of a Hard review: `penalty` after a Hard, and 1 after anything else.
pub fn hard_factor(rating: u32, penalty: Single) -> (r: Single)
    ensures
        r == if rating == 2 {
            penalty
        } else {
            Single::one()
        },
{
    if rating == 2 {
        penalty
    } else {
        Single::one()
    }
}

/// The factor of an Easy review: `bonus` after an Easy, and 1 after anything else.
pub fn easy_factor(rating: u32, bonus: Single) -> (r: Single)
    ensures
        r == if rating == 4 {
            bonus
        } else {
            Single::one()
        },
{
    if rating == 4 {
        bonus
    } else {
        Single::one()
    }
}

/// The stability after a review: after a lapse, what is left, but no more than before;
/// after a recall, what it has grown to, but no less than after a lapse.
pub open spec fn stability_after(rating: u32, last: Single, left: Single, grown: Single) -> Single {
    if rating > 1 {
        last.smaller(left).larger(grown)
    } else {
        last.smaller(left)
    }
}

/// The stability after a review: `last` is the stability before it, `left` what a lapse
/// would leave of it, and `grown` what a recall would make of it.
pub fn choose_stability(rating: u32, last: Single, left: Single, grown: Single) -> (r: Single)
    ensures
        r == stability_after(rating, last, left, grown),
{
    let lapsed = last.min(left);
    if rating > 1 {
        lapsed.max(grown)
    } else {
        lapsed
    }
}

/// A lapse does not raise stability, and a recall does not leave less than a lapse.
pub proof fn law_lapses_do_not_raise_stability(rating: u32, last: Single, left: Single, grown: Single)
    requires
        !last.nan(),
    ensures
        rating <= 1 ==> stability_after(rating, last, left, grown).at_most(last),
        rating > 1 ==> stability_after(1, last, left, grown).at_most(
            stability_after(rating, last, left, grown),
        ),
{
}

/// The stability of the fast trace after a review: after an Again, no more than `cap`.
pub open spec fn fast_after(rating: u32, fast: Single, cap: Single) -> Single {
    if rating == 1 {
        fast.smaller(cap)
    } else {
        fast
    }
}

/// The stability of the fast trace after a review, capped after an Again.
pub fn reset_fast(rating: u32, fast: Single, cap: Single) -> (r: Single)
    ensures
        r == fast_after(rating, fast, cap),
{
    if rating == 1 {
        fast.min(cap)
    } else {
        fast
    }
}

/// The change of difficulty: after an Again, the one that is scaled by surprise.
pub fn difficulty_change(rating: u32, plain: Single, surprised: Single) -> (r: Single)
    ensures
        r == if rating == 1 {
            surprised
        } else {
            plain
        },
{
    if rating == 1 {
        surprised
    } else {
        plain
    }
}

/// Whether a number is strictly between two others.
pub open spec fn strictly_inside(x: Single, low: Single, high: Single) -> bool {
    low.below(x) && x.below(high)
}

/// Whether a gradient flows back through holding `x` between two numbers.
pub fn passes_clamp(x: Single, low: Single, high: Single) -> (r: bool)
    ensures
        r == strictly_inside(x, low, high),
{
    low.lt(x) && x.lt(high)
}

/// Whether a gradient flows back through holding `x` below a number.
pub fn passes_cap(x: Single, high: Single) -> (r: bool)
    ensures
        r == x.below(high),
{
    x.lt(high)
}

/// A gradient that flows back where the way is open, and 0 where it is not.
pub open spec fn passed(gradient: Double, open_way: bool) -> Double {
    if open_way {
        gradient
    } else {
        Double { bits: 0 }
    }
}

/// A gradient that flows back where the way is open, and 0 where it is not.
pub fn gated(gradient: Double, open_way: bool) -> (r: Double)
    ensures
        r == passed(gradient, open_way),
{
    if open_way {
        gradient
    } else {
        Double::from_bits(0)
    }
}

/// Where a gradient flows back through holding a number between two others, holding it
/// does not change it.
pub proof fn law_gradient_flows_where_clamping_changes_nothing(x: Single, low: Single, high: Single)
    requires
        strictly_inside(x, low, high),
    ensures
        x.held(low, high) == x,
{
}

/// The ways that the gradient of a stability flows back.
#[derive(Clone, Copy, Debug, PartialEq, Eq, Structural)]
pub struct StabilityWays {
    /// To what a recall makes of the stability, from a recall.
    pub grown: bool,
    /// To what a lapse makes of it, from a recall.
    pub lapsed: bool,
    /// To what a lapse makes of it, from a lapse.
    pub direct: bool,
    /// On from there to the stability before.
    pub last: bool,
    /// On from there to what a lapse leaves.
    pub left: bool,
}

/// The ways that the gradient of a stability flows back: to the number that was chosen.
pub open spec fn ways_of(rating: u32, last: Single, left: Single, grown: Single) -> StabilityWays {
    let lapsed = last.smaller(left);
    StabilityWays {
        grown: rating > 1 && lapsed.below(grown),
        lapsed: rating > 1 && grown.at_most(lapsed),
        direct: rating <= 1,
        last: last.at_most(left),
        left: left.below(last),
    }
}

/// The ways that the gradient of a stability flows back.
pub fn stability_ways(rating: u32, last: Single, left: Single, grown: Single) -> (r: StabilityWays)
    ensures
        r == ways_of(rating, last, left, grown),
{
    let lapsed = last.min(left);
    StabilityWays {
        grown: rating > 1 && lapsed.lt(grown),
        lapsed: rating > 1 && grown.le(lapsed),
        direct: rating <= 1,
        last: last.le(left),
        left: left.lt(last),
    }
}

/// A gradient flows back one way only, and to the number that the stability was chosen
/// from.
pub proof fn law_gradient_follows_the_choice(rating: u32, last: Single, left: Single, grown: Single)
    requires
        !last.nan(),
        !left.nan(),
        !grown.nan(),
    ensures
        ({
            let ways = ways_of(rating, last, left, grown);
            let after = stability_after(rating, last, left, grown);
            let lapsed = last.smaller(left);
            &&& ways.grown ==> after == grown && !ways.lapsed && !ways.direct
            &&& ways.lapsed ==> after == lapsed && !ways.grown && !ways.direct
            &&& ways.direct ==> after == lapsed && !ways.grown && !ways.lapsed
            &&& ways.grown || ways.lapsed || ways.direct
            &&& ways.last ==> lapsed == last && !ways.left
            &&& ways.left ==> lapsed == left && !ways.last
            &&& ways.last || ways.left
        }),
{
}

/// The gradient of a memory state.
#[derive(Clone, Copy, Debug, PartialEq)]
pub struct StateGradient {
    /// By the stability.
    pub stability: Double,
    /// By the difficulty.
    pub difficulty: Double,
    /// By the stability of the fast trace.
    pub stability_fast: Double,
}

impl StateGradient {
    /// The gradient of a state that nothing depends on: all 0.
    #[verifier::allow_in_spec]
    pub fn zeros() -> (r: StateGradient)
        returns
            (StateGradient {
                stability: Double { bits: 0 },
                difficulty: Double { bits: 0 },
                stability_fast: Double { bits: 0 },
            }),
    {
        StateGradient {
            stability: Double { bits: 0 },
            difficulty: Double { bits: 0 },
            stability_fast: Double { bits: 0 },
        }
    }
}

/// Whether a stability is strictly inside its range.
pub open spec fn stability_inside(stability: Single) -> bool {
    strictly_inside(stability, Single { bits: S_MIN }, Single { bits: S_MAX })
}

/// Whether a difficulty is strictly inside its range.
pub open spec fn difficulty_inside(difficulty: Single) -> bool {
    strictly_inside(difficulty, Single { bits: D_MIN }, Single { bits: D_MAX })
}

/// The gradient of a state, from that of the state with every part held in its range.
pub open spec fn before_bounding(state: MemoryState, gradient: StateGradient) -> StateGradient {
    StateGradient {
        stability: passed(gradient.stability, stability_inside(state.stability)),
        difficulty: passed(gradient.difficulty, difficulty_inside(state.difficulty)),
        stability_fast: passed(gradient.stability_fast, stability_inside(state.stability_fast)),
    }
}

/// Whether a stability is strictly inside its range.
pub fn passes_stability(stability: Single) -> (r: bool)
    ensures
        r == stability_inside(stability),
{
    passes_clamp(stability, Single::from_bits(S_MIN), Single::from_bits(S_MAX))
}

/// Whether a difficulty is strictly inside its range.
pub fn passes_difficulty(difficulty: Single) -> (r: bool)
    ensures
        r == difficulty_inside(difficulty),
{
    passes_clamp(difficulty, Single::from_bits(D_MIN), Single::from_bits(D_MAX))
}

/// Whether `update` may take `gradient` back to `last`, and leave `total` of the gradient
/// of the parameters.
pub open spec fn taken_back<W, U: Fn(W, StateGradient) -> (StateGradient, W)>(
    update: U,
    weights: W,
    gradient: StateGradient,
    last: StateGradient,
    total: W,
) -> bool {
    call_ensures(update, (weights, gradient), (last, total))
}

/// Takes a gradient back through one review: from that of the state after it to that of
/// the state `before` it. `weights` is the gradient of the parameters so far. `initial`
/// takes a gradient back through the state after a first review, to the parameters alone;
/// `update` takes it back through any other, to the state that it was computed from, held
/// in range, and to the parameters.
pub fn review_back<W, I, U>(
    before: MemoryState,
    rating: u32,
    reviewed: Reviewed,
    gradient: StateGradient,
    weights: W,
    initial: I,
    update: U,
) -> (r: (StateGradient, W)) where
    I: Fn(W, u32, StateGradient) -> W,
    U: Fn(W, StateGradient) -> (StateGradient, W),

    requires
        reviewed.source == Source::Initial ==> call_requires(
            initial,
            (weights, held_rating(rating), before_bounding(reviewed.raw, gradient)),
        ),
        reviewed.source == Source::Review ==> call_requires(
            update,
            (weights, before_bounding(reviewed.raw, gradient)),
        ),
    ensures
        reviewed.source == Source::Padding ==> r.0 == before_bounding(
            before,
            before_bounding(reviewed.raw, gradient),
        ) && r.1 == weights,
        reviewed.source == Source::Initial ==> r.0 == StateGradient::zeros() && call_ensures(
            initial,
            (weights, held_rating(rating), before_bounding(reviewed.raw, gradient)),
            r.1,
        ),
        reviewed.source == Source::Review ==> exists|last: StateGradient| #[trigger]
            taken_back(update, weights, before_bounding(reviewed.raw, gradient), last, r.1) && r.0
                == before_bounding(before, last),
{
    let raw = StateGradient {
        stability: gated(gradient.stability, passes_stability(reviewed.raw.stability)),
        difficulty: gated(gradient.difficulty, passes_difficulty(reviewed.raw.difficulty)),
        stability_fast: gated(
            gradient.stability_fast,
            passes_stability(reviewed.raw.stability_fast),
        ),
    };
    let (last, total) = match reviewed.source {
        Source::Padding => (raw, weights),
        Source::Initial => (
            StateGradient::zeros(),
            initial(weights, initial_stability_place(rating) as u32 + 1, raw),
        ),
        Source::Review => update(weights, raw),
    };
    let state = StateGradient {
        stability: gated(last.stability, passes_stability(before.stability)),
        difficulty: gated(last.difficulty, passes_difficulty(before.difficulty)),
        stability_fast: gated(last.stability_fast, passes_stability(before.stability_fast)),
    };
    let r = (state, total);
    assert(reviewed.source == Source::Review ==> taken_back(update, weights, raw, last, r.1));
    r
}

/// Padding passes gradients on as they are, where a state is strictly inside its range:
/// how far a column is padded does not change its gradient.
pub proof fn law_padding_passes_gradients(state: MemoryState, gradient: StateGradient)
    requires
        stability_inside(state.stability),
        difficulty_inside(state.difficulty),
        stability_inside(state.stability_fast),
    ensures
        bounded(state) == state,
        before_bounding(state, before_bounding(bounded(state), gradient)) == gradient,
{
}

/// Whether the fast trace is capped after a review: after an Again, where the cap is less.
pub open spec fn capped(rating: u32, fast: Single, cap: Single) -> bool {
    rating == 1 && cap.below(fast)
}

/// Whether the gradient of the fast trace's stability flows back to the cap.
pub fn reset_passes_to_cap(rating: u32, fast: Single, cap: Single) -> (r: bool)
    ensures
        r == capped(rating, fast, cap),
{
    rating == 1 && cap.lt(fast)
}

/// The gradient of the fast trace's stability flows back to the number that the stability
/// was chosen from.
pub proof fn law_reset_gradient_follows_the_choice(rating: u32, fast: Single, cap: Single)
    requires
        !fast.nan(),
        !cap.nan(),
    ensures
        capped(rating, fast, cap) ==> fast_after(rating, fast, cap) == cap,
        !capped(rating, fast, cap) ==> fast_after(rating, fast, cap) == fast,
{
}

/// Whether a review of a card is scored: not the first one, and not one without weight.
pub fn is_scored(t: usize, weight: Single) -> (r: bool)
    ensures
        r == (t >= 1 && !weight.same(Single::zero())),
{
    t >= 1 && !weight.eq_number(Single::zero())
}

/// Holds a recall in the range that is scored.
pub fn scored_recall(recall: Single) -> (r: Single)
    ensures
        r == held_recall(recall),
{
    recall.clamp(Single::from_bits(MIN_R), Single::from_bits(MAX_R))
}

/// A recall that is scored is a number between 0 and 1, neither of them included, so that
/// its logarithm and that of its complement are finite.
pub proof fn law_scored_recalls_have_logarithms(recall: Single)
    ensures
        held_recall(recall).finite(),
        Single::zero().below(held_recall(recall)),
        held_recall(recall).below(Single::one()),
{
    lemma_ranges();
    let low = Single { bits: MIN_R };
    let high = Single { bits: MAX_R };
    recall.lemma_held(low, high);
    Single::zero().lemma_rank(low);
    high.lemma_rank(Single::one());
    low.lemma_rank(high);
}

/// The states after a review come from padding if and only if the rating is 0; from the
/// rating alone if and only if it is a first review of a card whose stability is 0, of
/// either sign; and otherwise from the state before.
pub proof fn law_where_states_come_from(rating: u32, first: bool, stability: Single)
    ensures
        source_of(rating, first, stability) == Source::Padding <==> rating == 0,
        source_of(rating, first, stability) == Source::Initial <==> rating != 0 && first
            && !stability.nan() && stability.value() == 0,
        source_of(rating, first, stability) == Source::Review <==> rating != 0 && (!first
            || stability.nan() || stability.value() != 0),
{
    crate::single::lemma_zero();
}

/// A rating that is held is one of the four: itself where it is one, and the nearest
/// otherwise.
pub proof fn law_held_ratings_are_ratings(rating: u32)
    ensures
        1 <= held_rating(rating) <= 4,
        1 <= rating <= 4 ==> held_rating(rating) == rating,
        rating == 0 ==> held_rating(rating) == 1,
        rating > 4 ==> held_rating(rating) == 4,
{
}

/// The stability after an Again is the smaller of what it was and what a lapse leaves. After
/// a Hard, a Good or an Easy it is the larger of that and of what it has grown to: a Hard is
/// a recall.
pub proof fn law_what_stability_becomes(rating: u32, last: Single, left: Single, grown: Single)
    requires
        !last.nan(),
        !left.nan(),
        !grown.nan(),
    ensures
        rating <= 1 ==> {
            let after = stability_after(rating, last, left, grown);
            &&& after.at_most(last) && after.at_most(left)
            &&& after == last || after == left
        },
        rating >= 2 ==> {
            let after = stability_after(rating, last, left, grown);
            let lapsed = stability_after(1, last, left, grown);
            &&& lapsed.at_most(after) && grown.at_most(after)
            &&& after == lapsed || after == grown
        },
{
}

/// The fast trace is capped after an Again, and after nothing else: then its stability is the
/// smaller of what it would be and the cap.
pub proof fn law_when_the_fast_trace_is_capped(rating: u32, fast: Single, cap: Single)
    requires
        !fast.nan(),
        !cap.nan(),
    ensures
        rating == 1 ==> {
            &&& fast_after(rating, fast, cap).at_most(fast)
            &&& fast_after(rating, fast, cap).at_most(cap)
            &&& fast_after(rating, fast, cap) == fast || fast_after(rating, fast, cap) == cap
        },
        rating != 1 ==> fast_after(rating, fast, cap) == fast,
{
}

/// A state that is held is, part by part, the nearest one in range.
pub proof fn law_held_states_are_the_nearest(state: MemoryState)
    ensures
        ({
            let s_min = Single { bits: S_MIN };
            let s_max = Single { bits: S_MAX };
            let d_min = Single { bits: D_MIN };
            let d_max = Single { bits: D_MAX };
            let r = bounded(state);
            &&& s_min.at_most(state.stability) && state.stability.at_most(s_max) ==> r.stability
                == state.stability
            &&& state.stability.below(s_min) ==> r.stability == s_min
            &&& s_max.below(state.stability) ==> r.stability == s_max
            &&& d_min.at_most(state.difficulty) && state.difficulty.at_most(d_max) ==> r.difficulty
                == state.difficulty
            &&& state.difficulty.below(d_min) ==> r.difficulty == d_min
            &&& d_max.below(state.difficulty) ==> r.difficulty == d_max
            &&& s_min.at_most(state.stability_fast) && state.stability_fast.at_most(s_max)
                ==> r.stability_fast == state.stability_fast
            &&& state.stability_fast.below(s_min) ==> r.stability_fast == s_min
            &&& s_max.below(state.stability_fast) ==> r.stability_fast == s_max
        }),
{
    lemma_ranges();
}

/// The gradient of a state that is held is that of the state itself where a part is strictly
/// between the ends of its range, and 0 where it is at an end, beyond it or not a number; for
/// each part by itself.
pub proof fn law_gradients_stop_at_the_ends(state: MemoryState, gradient: StateGradient)
    ensures
        ({
            let s_min = Single { bits: S_MIN };
            let s_max = Single { bits: S_MAX };
            let d_min = Single { bits: D_MIN };
            let d_max = Single { bits: D_MAX };
            let none = Double { bits: 0 };
            let r = before_bounding(state, gradient);
            &&& s_min.below(state.stability) && state.stability.below(s_max) ==> r.stability
                == gradient.stability
            &&& state.stability.at_most(s_min) || s_max.at_most(state.stability)
                || state.stability.nan() ==> r.stability == none
            &&& d_min.below(state.difficulty) && state.difficulty.below(d_max) ==> r.difficulty
                == gradient.difficulty
            &&& state.difficulty.at_most(d_min) || d_max.at_most(state.difficulty)
                || state.difficulty.nan() ==> r.difficulty == none
            &&& s_min.below(state.stability_fast) && state.stability_fast.below(s_max)
                ==> r.stability_fast == gradient.stability_fast
            &&& state.stability_fast.at_most(s_min) || s_max.at_most(state.stability_fast)
                || state.stability_fast.nan() ==> r.stability_fast == none
        }),
{
}

/// A recall that is scored is the recall itself where it lies in the range that is scored,
/// and the nearest end otherwise.
pub proof fn law_scored_recalls_are_the_nearest(recall: Single)
    ensures
        (Single { bits: MIN_R }).at_most(recall) && recall.at_most(Single { bits: MAX_R })
            ==> held_recall(recall) == recall,
        recall.below(Single { bits: MIN_R }) ==> held_recall(recall) == (Single { bits: MIN_R }),
        (Single { bits: MAX_R }).below(recall) ==> held_recall(recall) == (Single { bits: MAX_R }),
{
    lemma_ranges();
}

/// Which way a gradient flows back is decided by where the stability came from: to what a
/// recall made of it only after a recall, and then only where that is the larger; back to
/// the stability before only where a lapse leaves no less.
pub proof fn law_ways_are_those_of_the_review(rating: u32, last: Single, left: Single, grown: Single)
    ensures
        ({
            let ways = ways_of(rating, last, left, grown);
            &&& ways.direct <==> rating <= 1
            &&& rating <= 1 ==> !ways.grown && !ways.lapsed
            &&& rating >= 2 && last.at_most(left) ==> (ways.grown <==> last.below(grown)) && (
            ways.lapsed <==> grown.at_most(last))
            &&& rating >= 2 && left.below(last) ==> (ways.grown <==> left.below(grown)) && (
            ways.lapsed <==> grown.at_most(left))
            &&& ways.last <==> last.at_most(left)
            &&& ways.left <==> left.below(last)
        }),
{
}

/// A gradient is taken back by `update` from what it gets: the gradient of the parameters so
/// far, and that of the state after the review.
pub proof fn law_what_takes_a_gradient_back<W, U: Fn(W, StateGradient) -> (StateGradient, W)>(
    update: U,
    weights: W,
    gradient: StateGradient,
    last: StateGradient,
    total: W,
)
    requires
        taken_back(update, weights, gradient, last, total),
    ensures
        call_ensures(update, (weights, gradient), (last, total)),
{
}

} // verus!
