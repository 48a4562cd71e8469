//! Eight columns at a time: comparing, choosing and holding eight numbers lane by lane, and
//! the parts of their exponential and logarithm that are decided by bits.

use crate::memory::MemoryState;
use crate::single::Single;
use crate::step::{initial_stability_place, D_MAX, D_MIN, S_MAX, S_MIN};
use vstd::arithmetic::power2::*;
use vstd::prelude::*;

verus! {

/// Eight numbers.
pub type Lane8 = [Single; 8];

/// A yes or no for each lane.
pub type Mask8 = [bool; 8];

/// The eight numbers from place `i` on.
pub fn load8(s: &[Single], i: usize) -> (r: Lane8)
    requires
        i + 8 <= s@.len(),
    ensures
        forall|l: int| 0 <= l < 8 ==> #[trigger] r[l] == s@[i + l],
{
    [s[i], s[i + 1], s[i + 2], s[i + 3], s[i + 4], s[i + 5], s[i + 6], s[i + 7]]
}

/// The eight ratings from place `i` on.
pub fn load_ratings8(s: &[u32], i: usize) -> (r: [u32; 8])
    requires
        i + 8 <= s@.len(),
    ensures
        forall|l: int| 0 <= l < 8 ==> #[trigger] r[l] == s@[i + l],
{
    [s[i], s[i + 1], s[i + 2], s[i + 3], s[i + 4], s[i + 5], s[i + 6], s[i + 7]]
}

/// The same number in every lane.
pub fn splat8(x: Single) -> (r: Lane8)
    ensures
        forall|l: int| 0 <= l < 8 ==> #[trigger] r[l] == x,
{
    [x, x, x, x, x, x, x, x]
}

/// Holds each lane between two numbers.
pub fn clamp8(x: Lane8, low: Single, high: Single) -> (r: Lane8)
    ensures
        forall|l: int| 0 <= l < 8 ==> #[trigger] r[l] == x[l].held(low, high),
{
    [x[0].clamp(low, high), x[1].clamp(low, high), x[2].clamp(low, high), x[3].clamp(low, high), x[4].clamp(low, high), x[5].clamp(low, high), x[6].clamp(low, high), x[7].clamp(low, high)]
}

/// The larger number of each lane.
pub fn max8(x: Lane8, y: Lane8) -> (r: Lane8)
    ensures
        forall|l: int| 0 <= l < 8 ==> #[trigger] r[l] == x[l].larger(y[l]),
{
    [x[0].max(y[0]), x[1].max(y[1]), x[2].max(y[2]), x[3].max(y[3]), x[4].max(y[4]), x[5].max(y[5]), x[6].max(y[6]), x[7].max(y[7])]
}

/// The smaller number of each lane.
pub fn min8(x: Lane8, y: Lane8) -> (r: Lane8)
    ensures
        forall|l: int| 0 <= l < 8 ==> #[trigger] r[l] == x[l].smaller(y[l]),
{
    [x[0].min(y[0]), x[1].min(y[1]), x[2].min(y[2]), x[3].min(y[3]), x[4].min(y[4]), x[5].min(y[5]), x[6].min(y[6]), x[7].min(y[7])]
}

/// Whether the first number of each lane is larger.
pub fn gt8(x: Lane8, y: Lane8) -> (r: Mask8)
    ensures
        forall|l: int| 0 <= l < 8 ==> #[trigger] r[l] == y[l].below(x[l]),
{
    [y[0].lt(x[0]), y[1].lt(x[1]), y[2].lt(x[2]), y[3].lt(x[3]), y[4].lt(x[4]), y[5].lt(x[5]), y[6].lt(x[6]), y[7].lt(x[7])]
}

/// Whether the first number of each lane is smaller.
pub fn lt8(x: Lane8, y: Lane8) -> (r: Mask8)
    ensures
        forall|l: int| 0 <= l < 8 ==> #[trigger] r[l] == x[l].below(y[l]),
{
    [x[0].lt(y[0]), x[1].lt(y[1]), x[2].lt(y[2]), x[3].lt(y[3]), x[4].lt(y[4]), x[5].lt(y[5]), x[6].lt(y[6]), x[7].lt(y[7])]
}

/// Whether the first number of each lane is not smaller.
pub fn ge8(x: Lane8, y: Lane8) -> (r: Mask8)
    ensures
        forall|l: int| 0 <= l < 8 ==> #[trigger] r[l] == y[l].at_most(x[l]),
{
    [y[0].le(x[0]), y[1].le(x[1]), y[2].le(x[2]), y[3].le(x[3]), y[4].le(x[4]), y[5].le(x[5]), y[6].le(x[6]), y[7].le(x[7])]
}

/// Whether the first number of each lane is not larger.
pub fn le8(x: Lane8, y: Lane8) -> (r: Mask8)
    ensures
        forall|l: int| 0 <= l < 8 ==> #[trigger] r[l] == x[l].at_most(y[l]),
{
    [x[0].le(y[0]), x[1].le(y[1]), x[2].le(y[2]), x[3].le(y[3]), x[4].le(y[4]), x[5].le(y[5]), x[6].le(y[6]), x[7].le(y[7])]
}

/// Whether each lane is strictly between two numbers: where a gradient flows back through
/// `clamp8`.
pub fn inside8(x: Lane8, low: Single, high: Single) -> (r: Mask8)
    ensures
        forall|l: int|
            0 <= l < 8 ==> #[trigger] r[l] == crate::step::strictly_inside(x[l], low, high),
{
    let low8 = splat8(low);
    let high8 = splat8(high);
    both8(gt8(x, low8), lt8(x, high8))
}

/// Whether both hold, in each lane.
pub fn both8(x: Mask8, y: Mask8) -> (r: Mask8)
    ensures
        forall|l: int| 0 <= l < 8 ==> #[trigger] r[l] == (x[l] && y[l]),
{
    [x[0] && y[0], x[1] && y[1], x[2] && y[2], x[3] && y[3], x[4] && y[4], x[5] && y[5], x[6] && y[6], x[7] && y[7]]
}

/// Which lanes have the rating.
pub fn rated8(ratings: [u32; 8], rating: u32) -> (r: Mask8)
    ensures
        forall|l: int| 0 <= l < 8 ==> #[trigger] r[l] == (ratings[l] == rating),
{
    [ratings[0] == rating, ratings[1] == rating, ratings[2] == rating, ratings[3] == rating, ratings[4] == rating, ratings[5] == rating, ratings[6] == rating, ratings[7] == rating]
}

/// Which lanes were recalled: those with a rating above 1.
pub fn recalled8(ratings: [u32; 8]) -> (r: Mask8)
    ensures
        forall|l: int| 0 <= l < 8 ==> #[trigger] r[l] == (ratings[l] > 1),
{
    [ratings[0] > 1, ratings[1] > 1, ratings[2] > 1, ratings[3] > 1, ratings[4] > 1, ratings[5] > 1, ratings[6] > 1, ratings[7] > 1]
}

/// In each lane the first number where the mask says yes, and the second where it says no.
pub fn choose8(mask: Mask8, yes: Lane8, no: Lane8) -> (r: Lane8)
    ensures
        forall|l: int|
            0 <= l < 8 ==> #[trigger] r[l] == if mask[l] {
                yes[l]
            } else {
                no[l]
            },
{
    [pick(mask[0], yes[0], no[0]), pick(mask[1], yes[1], no[1]), pick(mask[2], yes[2], no[2]), pick(mask[3], yes[3], no[3]), pick(mask[4], yes[4], no[4]), pick(mask[5], yes[5], no[5]), pick(mask[6], yes[6], no[6]), pick(mask[7], yes[7], no[7])]
}

fn pick(mask: bool, yes: Single, no: Single) -> (r: Single)
    ensures
        r == if mask {
            yes
        } else {
            no
        },
{
    if mask {
        yes
    } else {
        no
    }
}

/// The initial stability of each lane, from its rating and the four parameters.
pub fn initial_stability8(ratings: [u32; 8], w: [Single; 4]) -> (r: Lane8)
    ensures
        forall|l: int|
            0 <= l < 8 ==> #[trigger] r[l] == w[crate::step::held_rating(ratings[l]) - 1],
{
    [w[initial_stability_place(ratings[0])], w[initial_stability_place(ratings[1])], w[initial_stability_place(ratings[2])], w[initial_stability_place(ratings[3])], w[initial_stability_place(ratings[4])], w[initial_stability_place(ratings[5])], w[initial_stability_place(ratings[6])], w[initial_stability_place(ratings[7])]]
}

/// The memory states of eight columns, or their gradients.
#[derive(Clone, Copy, Debug)]
pub struct State8 {
    /// The stabilities.
    pub stability: Lane8,
    /// The difficulties.
    pub difficulty: Lane8,
    /// The stabilities of the fast trace.
    pub stability_fast: Lane8,
}

impl State8 {
    /// The state of one column.
    pub open spec fn lane(self, l: int) -> MemoryState {
        MemoryState {
            stability: self.stability[l],
            difficulty: self.difficulty[l],
            stability_fast: self.stability_fast[l],
        }
    }

    /// Nothing but zeros.
    pub fn zeros() -> (r: Self)
        ensures
            forall|l: int| 0 <= l < 8 ==> #[trigger] r.lane(l) == MemoryState::zeros(),
    {
        let zero = splat8(Single::zero());
        State8 { stability: zero, difficulty: zero, stability_fast: zero }
    }
}

/// Holds every part of each state in its range.
pub fn bound8(state: State8) -> (r: State8)
    ensures
        forall|l: int|
            0 <= l < 8 ==> #[trigger] r.lane(l) == crate::step::bounded(state.lane(l)),
{
    State8 {
        stability: clamp8(state.stability, Single::from_bits(S_MIN), Single::from_bits(S_MAX)),
        difficulty: clamp8(state.difficulty, Single::from_bits(D_MIN), Single::from_bits(D_MAX)),
        stability_fast: clamp8(
            state.stability_fast,
            Single::from_bits(S_MIN),
            Single::from_bits(S_MAX),
        ),
    }
}

/// In each lane the first state where the mask says yes, and the second where it says no.
pub fn choose_state8(mask: Mask8, yes: State8, no: State8) -> (r: State8)
    ensures
        forall|l: int|
            0 <= l < 8 ==> #[trigger] r.lane(l) == if mask[l] {
                yes.lane(l)
            } else {
                no.lane(l)
            },
{
    State8 {
        stability: choose8(mask, yes.stability, no.stability),
        difficulty: choose8(mask, yes.difficulty, no.difficulty),
        stability_fast: choose8(mask, yes.stability_fast, no.stability_fast),
    }
}

/// Holds each rating between 1 and 4.
pub fn hold_ratings8(ratings: [u32; 8]) -> (r: [u32; 8])
    ensures
        forall|l: int| 0 <= l < 8 ==> #[trigger] r[l] == crate::step::held_rating(ratings[l]),
{
    [hold_rating(ratings[0]), hold_rating(ratings[1]), hold_rating(ratings[2]), hold_rating(ratings[3]), hold_rating(ratings[4]), hold_rating(ratings[5]), hold_rating(ratings[6]), hold_rating(ratings[7])]
}

fn hold_rating(rating: u32) -> (r: u32)
    ensures
        r == crate::step::held_rating(rating),
{
    initial_stability_place(rating) as u32 + 1
}

/// The states after eight reviews, one in each column.
#[derive(Clone, Copy, Debug)]
pub struct Reviewed8 {
    /// The states before the reviews, held in range.
    pub last: State8,
    /// The states after the reviews, before they are held in range.
    pub raw: State8,
    /// The states after the reviews.
    pub state: State8,
}

/// Whether every rating of `held` is that of `ratings`, held between 1 and 4.
pub open spec fn all_held(held: [u32; 8], ratings: [u32; 8]) -> bool {
    forall|l: int| 0 <= l < 8 ==> #[trigger] held[l] == crate::step::held_rating(ratings[l])
}

/// Whether every state of `last` is that of `state`, held in range.
pub open spec fn all_bounded(last: State8, state: State8) -> bool {
    forall|l: int| 0 <= l < 8 ==> #[trigger] last.lane(l) == crate::step::bounded(state.lane(l))
}

/// Whether `initial` may give `raw` for ratings that are held between 1 and 4.
pub open spec fn began<I: Fn([u32; 8]) -> State8>(
    initial: I,
    held: [u32; 8],
    ratings: [u32; 8],
    raw: State8,
) -> bool {
    all_held(held, ratings) && call_ensures(initial, (held,), raw)
}

/// Whether `raw` may be what `update` gives, and in the columns of padding the states
/// before.
pub open spec fn went_on<U: Fn(State8, [u32; 8]) -> State8>(
    update: U,
    last: State8,
    ratings: [u32; 8],
    updated: State8,
    raw: State8,
) -> bool {
    &&& call_ensures(update, (last, ratings), updated)
    &&& forall|l: int|
        0 <= l < 8 ==> #[trigger] raw.lane(l) == if ratings[l] == 0 {
            last.lane(l)
        } else {
            updated.lane(l)
        }
}

/// Does eight reviews, one in each column. `initial` computes the states after first
/// reviews from the ratings, held between 1 and 4; `update` computes the states after any
/// others from the states before, held in range, and the ratings.
pub fn review8<I, U>(state: State8, ratings: [u32; 8], first: bool, initial: &I, update: &U) -> (r:
    Reviewed8) where I: Fn([u32; 8]) -> State8, U: Fn(State8, [u32; 8]) -> State8
    requires
        first ==> forall|held: [u32; 8]| #[trigger]
            all_held(held, ratings) ==> call_requires(*initial, (held,)),
        !first ==> forall|last: State8| #[trigger]
            all_bounded(last, state) ==> call_requires(*update, (last, ratings)),
    ensures
        all_bounded(r.last, state),
        first ==> exists|held: [u32; 8]| #[trigger] began(*initial, held, ratings, r.raw),
        !first ==> exists|updated: State8| #[trigger]
            went_on(*update, r.last, ratings, updated, r.raw),
        forall|l: int|
            0 <= l < 8 ==> #[trigger] r.state.lane(l) == crate::step::bounded(r.raw.lane(l)),
{
    let last = bound8(state);
    assert(all_bounded(last, state));
    if first {
        let held = hold_ratings8(ratings);
        assert(all_held(held, ratings));
        let raw = initial(held);
        let r = Reviewed8 { last, raw, state: bound8(raw) };
        assert(began(*initial, held, ratings, r.raw));
        r
    } else {
        let updated = update(last, ratings);
        let raw = choose_state8(rated8(ratings, 0), last, updated);
        let r = Reviewed8 { last, raw, state: bound8(raw) };
        assert(went_on(*update, r.last, ratings, updated, r.raw));
        r
    }
}

/// Eight columns at a time go as columns do one by one, where the functions passed in
/// compute each lane as they would by itself. (Where the first review of a column is
/// padding, there is no card in it: its lane starts as a card does.)
pub proof fn law_lanes_go_as_single_columns<I, U>(
    state: State8,
    ratings: [u32; 8],
    first: bool,
    initial: I,
    update: U,
    r: Reviewed8,
    initial_of: spec_fn(u32) -> MemoryState,
    update_of: spec_fn(MemoryState, u32) -> MemoryState,
    l: int,
) where I: Fn([u32; 8]) -> State8, U: Fn(State8, [u32; 8]) -> State8
    requires
        0 <= l < 8,
        all_bounded(r.last, state),
        first ==> exists|held: [u32; 8]| #[trigger] began(initial, held, ratings, r.raw),
        !first ==> exists|updated: State8| #[trigger]
            went_on(update, r.last, ratings, updated, r.raw),
        r.state.lane(l) == crate::step::bounded(r.raw.lane(l)),
        forall|held: [u32; 8], raw: State8| #[trigger]
            call_ensures(initial, (held,), raw) ==> raw.lane(l) == initial_of(held[l]),
        forall|last: State8, rs: [u32; 8], updated: State8| #[trigger]
            call_ensures(update, (last, rs), updated) ==> updated.lane(l) == update_of(
                last.lane(l),
                rs[l],
            ),
        first ==> ratings[l] != 0 && state.lane(l).stability.same(Single::zero()),
    ensures
        r.state.lane(l) == crate::step::bounded(
            match crate::step::source_of(ratings[l], first, state.lane(l).stability) {
                crate::step::Source::Padding => crate::step::bounded(state.lane(l)),
                crate::step::Source::Initial => initial_of(crate::step::held_rating(ratings[l])),
                crate::step::Source::Review => update_of(
                    crate::step::bounded(state.lane(l)),
                    ratings[l],
                ),
            },
        ),
{
    assert(r.last.lane(l) == crate::step::bounded(state.lane(l)));
    if first {
        let held = choose|held: [u32; 8]| #[trigger] began(initial, held, ratings, r.raw);
        assert(held[l] == crate::step::held_rating(ratings[l]));
        assert(r.raw.lane(l) == initial_of(held[l]));
    } else {
        let updated = choose|updated: State8| #[trigger]
            went_on(update, r.last, ratings, updated, r.raw);
        assert(r.raw.lane(l) == if ratings[l] == 0 {
            r.last.lane(l)
        } else {
            updated.lane(l)
        });
    }
}

/// A gradient that flows back where the way is open, and 0 where it is not.
pub open spec fn passed_single(gradient: Single, open_way: bool) -> Single {
    if open_way {
        gradient
    } else {
        Single::zero()
    }
}

/// A gradient in each lane where the way is open, and 0 where it is not.
pub fn gated8(gradient: Lane8, open_ways: Mask8) -> (r: Lane8)
    ensures
        forall|l: int|
            0 <= l < 8 ==> #[trigger] r[l] == passed_single(gradient[l], open_ways[l]),
{
    choose8(open_ways, gradient, splat8(Single::zero()))
}

/// The gradient of a state in one lane, from that of the state with every part held in its
/// range.
pub open spec fn lane_before_bounding(state: MemoryState, gradient: MemoryState) -> MemoryState {
    MemoryState {
        stability: passed_single(
            gradient.stability,
            crate::step::stability_inside(state.stability),
        ),
        difficulty: passed_single(
            gradient.difficulty,
            crate::step::difficulty_inside(state.difficulty),
        ),
        stability_fast: passed_single(
            gradient.stability_fast,
            crate::step::stability_inside(state.stability_fast),
        ),
    }
}

/// Whether every lane of `raw` is the gradient before the states were held in range.
pub open spec fn all_before_bounding(raw: State8, states: State8, gradient: State8) -> bool {
    forall|l: int|
        0 <= l < 8 ==> #[trigger] raw.lane(l) == lane_before_bounding(
            states.lane(l),
            gradient.lane(l),
        )
}

/// Whether `flowing` holds the gradients of the columns that were reviewed, and `passing`
/// those of the columns of padding; both are 0 elsewhere.
pub open spec fn parted(raw: State8, ratings: [u32; 8], flowing: State8, passing: State8) -> bool {
    &&& forall|l: int|
        0 <= l < 8 ==> #[trigger] flowing.lane(l) == if ratings[l] == 0 {
            MemoryState::zeros()
        } else {
            raw.lane(l)
        }
    &&& forall|l: int|
        0 <= l < 8 ==> #[trigger] passing.lane(l) == if ratings[l] == 0 {
            raw.lane(l)
        } else {
            MemoryState::zeros()
        }
}

/// Whether `initial` may leave `total` of the gradient of the parameters.
pub open spec fn began_back<W, I: Fn(W, [u32; 8], State8) -> W>(
    initial: I,
    weights: W,
    held: [u32; 8],
    ratings: [u32; 8],
    raw: State8,
    total: W,
) -> bool {
    all_held(held, ratings) && call_ensures(initial, (weights, held, raw), total)
}

/// Whether `update` may take gradients back to `last`, and leave `total` of the gradient of
/// the parameters.
pub open spec fn went_back<W, U: Fn(W, State8, State8) -> (State8, W)>(
    update: U,
    weights: W,
    flowing: State8,
    passing: State8,
    last: State8,
    total: W,
) -> bool {
    call_ensures(update, (weights, flowing, passing), (last, total))
}

/// Takes gradients back through eight reviews, one in each column: from those of the states
/// after them to those of the states `before` them. `weights` are the gradients of the
/// parameters so far. `initial` takes gradients back through the states after first
/// reviews, to the parameters alone; `update` takes those of the columns that were reviewed
/// back to the states that they were computed from, held in range, and to the parameters,
/// and puts those of the columns of padding to them.
pub fn review8_back<W, I, U>(
    before: State8,
    ratings: [u32; 8],
    first: bool,
    reviewed: Reviewed8,
    gradient: State8,
    weights: W,
    initial: &I,
    update: &U,
) -> (r: (State8, W)) where
    I: Fn(W, [u32; 8], State8) -> W,
    U: Fn(W, State8, State8) -> (State8, W),

    requires
        first ==> forall|held: [u32; 8], raw: State8|
            #![trigger all_held(held, ratings), all_before_bounding(raw, reviewed.raw, gradient)]
            all_held(held, ratings) && all_before_bounding(raw, reviewed.raw, gradient)
                ==> call_requires(*initial, (weights, held, raw)),
        !first ==> forall|raw: State8, flowing: State8, passing: State8|
            #![trigger all_before_bounding(raw, reviewed.raw, gradient), parted(raw, ratings, flowing, passing)]
            all_before_bounding(raw, reviewed.raw, gradient) && parted(
                raw,
                ratings,
                flowing,
                passing,
            ) ==> call_requires(*update, (weights, flowing, passing)),
    ensures
        first ==> forall|l: int| 0 <= l < 8 ==> #[trigger] r.0.lane(l) == MemoryState::zeros(),
        first ==> exists|held: [u32; 8], raw: State8|
            #![trigger began_back(*initial, weights, held, ratings, raw, r.1)]
            all_before_bounding(raw, reviewed.raw, gradient) && began_back(
                *initial,
                weights,
                held,
                ratings,
                raw,
                r.1,
            ),
        !first ==> exists|raw: State8, flowing: State8, passing: State8, last: State8|
            #![trigger parted(raw, ratings, flowing, passing), went_back(*update, weights, flowing, passing, last, r.1)]
            all_before_bounding(raw, reviewed.raw, gradient) && parted(
                raw,
                ratings,
                flowing,
                passing,
            ) && went_back(*update, weights, flowing, passing, last, r.1) && (forall|l: int|
                0 <= l < 8 ==> #[trigger] r.0.lane(l) == lane_before_bounding(
                    before.lane(l),
                    last.lane(l),
                )),
{
    let s_min = Single::from_bits(S_MIN);
    let s_max = Single::from_bits(S_MAX);
    let d_min = Single::from_bits(D_MIN);
    let d_max = Single::from_bits(D_MAX);
    let raw = State8 {
        stability: gated8(gradient.stability, inside8(reviewed.raw.stability, s_min, s_max)),
        difficulty: gated8(gradient.difficulty, inside8(reviewed.raw.difficulty, d_min, d_max)),
        stability_fast: gated8(
            gradient.stability_fast,
            inside8(reviewed.raw.stability_fast, s_min, s_max),
        ),
    };
    assert(all_before_bounding(raw, reviewed.raw, gradient));
    if first {
        let held = hold_ratings8(ratings);
        assert(all_held(held, ratings));
        let total = initial(weights, held, raw);
        let r = (State8::zeros(), total);
        assert(began_back(*initial, weights, held, ratings, raw, r.1));
        r
    } else {
        let padding = rated8(ratings, 0);
        let flowing = choose_state8(padding, State8::zeros(), raw);
        let passing = choose_state8(padding, raw, State8::zeros());
        assert(parted(raw, ratings, flowing, passing));
        let (last, total) = update(weights, flowing, passing);
        let state = State8 {
            stability: gated8(last.stability, inside8(before.stability, s_min, s_max)),
            difficulty: gated8(last.difficulty, inside8(before.difficulty, d_min, d_max)),
            stability_fast: gated8(
                last.stability_fast,
                inside8(before.stability_fast, s_min, s_max),
            ),
        };
        let r = (state, total);
        assert(went_back(*update, weights, flowing, passing, last, r.1));
        r
    }
}

/// Whether a number is positive and normal: neither 0, nor subnormal, nor infinite.
pub open spec fn normal(x: Single) -> bool {
    0x80_0000 <= x.bits < 0x7f80_0000
}

/// The exponent of a number, and the number with its exponent taken away.
pub fn split(x: Single) -> (r: (i32, Single))
    ensures
        r.0 == (x.bits as int / 0x80_0000) % 256 - 127,
        r.1.bits == x.bits as int % 0x80_0000 + 0x3f80_0000,
{
    let exponent: u32 = (x.bits / 0x80_0000) % 256;
    (exponent as i32 - 127, Single::from_bits(x.bits % 0x80_0000 + 0x3f80_0000))
}

/// A normal number is the number without its exponent, times two to the exponent; the
/// number without its exponent is at least 1 and less than 2. (Both sides are multiplied
/// by 2^126 so that the exponent can be negative.)
pub proof fn law_split_numbers_multiply_back(x: Single, exponent: int, mantissa: Single)
    requires
        normal(x),
        exponent == (x.bits as int / 0x80_0000) % 256 - 127,
        mantissa.bits == x.bits as int % 0x80_0000 + 0x3f80_0000,
    ensures
        -126 <= exponent <= 127,
        mantissa.value() * pow2((exponent + 126) as nat) == x.value() * pow2(126),
        pow2(149) <= mantissa.value() < pow2(150),
{
    lemma2_to64();
    let unit = 0x80_0000int;
    let e = x.bits as int / unit;
    let f = x.bits as int % unit;
    assert(1 <= e <= 254);
    assert(mantissa.bits as int / unit == 127 && mantissa.bits as int % unit == f);
    let a = pow2(126) as int;
    let b = pow2((e - 1) as nat) as int;
    lemma_pow2_pos(126);
    assert(x.value() == (unit + f) * b);
    assert(mantissa.value() == (unit + f) * a);
    assert((unit + f) * a * b == (unit + f) * b * a) by (nonlinear_arith);
    lemma_pow2_adds(23, 126);
    lemma_pow2_adds(24, 126);
    assert(unit * a <= (unit + f) * a < 2 * unit * a) by (nonlinear_arith)
        requires
            0 <= f < unit,
            a > 0,
    ;
}

/// Whatever the numbers are, stabilities and difficulties that are held in their ranges
/// are positive and normal, so that they can be split.
pub proof fn law_states_can_be_split(state: crate::memory::MemoryState)
    ensures
        normal(crate::step::bounded(state).stability),
        normal(crate::step::bounded(state).difficulty),
        normal(crate::step::bounded(state).stability_fast),
{
    crate::step::law_states_stay_in_range(state);
    let held = crate::step::bounded(state);
    lemma_normal_between(held.stability, crate::step::S_MIN, crate::step::S_MAX);
    lemma_normal_between(held.difficulty, crate::step::D_MIN, crate::step::D_MAX);
    lemma_normal_between(held.stability_fast, crate::step::S_MIN, crate::step::S_MAX);
}

proof fn lemma_normal_between(x: Single, low: u32, high: u32)
    requires
        0x80_0000 <= low < 0x7f80_0000,
        0x80_0000 <= high < 0x7f80_0000,
        (Single { bits: low }).at_most(x),
        x.at_most(Single { bits: high }),
    ensures
        normal(x),
{
    (Single { bits: low }).lemma_rank(x);
    x.lemma_rank(Single { bits: high });
}

/// Two to the power of `n`.
pub fn power_of_two(n: i32) -> (r: Single)
    requires
        -126 <= n <= 127,
    ensures
        r.bits == (n + 127) * 0x80_0000,
{
    Single::from_bits((n + 127) as u32 * 0x80_0000)
}

/// The pattern that `power_of_two` gives stands for two to the power of `n`.
pub proof fn law_power_of_two_is_one(n: int, r: Single)
    requires
        -126 <= n <= 127,
        r.bits == (n + 127) * 0x80_0000,
    ensures
        r.finite(),
        !r.negative(),
        r.value() == pow2((n + 149) as nat),
{
    lemma2_to64();
    lemma_pow2_adds(23, (n + 126) as nat);
    assert(r.bits as int / 0x80_0000 == n + 127 && r.bits as int % 0x80_0000 == 0);
}

/// The exponent of each lane, and its number without the exponent.
pub fn split8(x: Lane8) -> (r: ([i32; 8], Lane8))
    ensures
        forall|l: int|
            0 <= l < 8 ==> #[trigger] r.0[l] == (x[l].bits as int / 0x80_0000) % 256 - 127,
        forall|l: int|
            0 <= l < 8 ==> (#[trigger] r.1[l]).bits == x[l].bits as int % 0x80_0000 + 0x3f80_0000,
{
    (
        [split(x[0]).0, split(x[1]).0, split(x[2]).0, split(x[3]).0, split(x[4]).0, split(x[5]).0, split(x[6]).0, split(x[7]).0],
        [split(x[0]).1, split(x[1]).1, split(x[2]).1, split(x[3]).1, split(x[4]).1, split(x[5]).1, split(x[6]).1, split(x[7]).1],
    )
}

/// Two to the power of each lane.
pub fn power_of_two8(n: [i32; 8]) -> (r: Lane8)
    requires
        forall|l: int| 0 <= l < 8 ==> -126 <= #[trigger] n[l] <= 127,
    ensures
        forall|l: int| 0 <= l < 8 ==> (#[trigger] r[l]).bits == (n[l] + 127) * 0x80_0000,
{
    [power_of_two(n[0]), power_of_two(n[1]), power_of_two(n[2]), power_of_two(n[3]), power_of_two(n[4]), power_of_two(n[5]), power_of_two(n[6]), power_of_two(n[7])]
}

/// A gradient in a lane flows back where that of a single column does, and nowhere else: each
/// part is passed on as it is, or is 0, in both alike.
pub proof fn law_lanes_gate_as_single_columns(
    state: MemoryState,
    lane: MemoryState,
    column: crate::step::StateGradient,
)
    ensures
        ({
            let a = lane_before_bounding(state, lane);
            let b = crate::step::before_bounding(state, column);
            let none = crate::double::Double { bits: 0 };
            &&& a.stability == lane.stability && b.stability == column.stability || a.stability
                == Single::zero() && b.stability == none
            &&& a.difficulty == lane.difficulty && b.difficulty == column.difficulty
                || a.difficulty == Single::zero() && b.difficulty == none
            &&& a.stability_fast == lane.stability_fast && b.stability_fast
                == column.stability_fast || a.stability_fast == Single::zero() && b.stability_fast
                == none
        }),
{
}

/// The gradient of a state in a lane is that of the state before it was held, where a part is
/// strictly between the ends of its range, and 0 where it is at an end, beyond it or not a
/// number.
pub proof fn law_lane_gradients_stop_at_the_ends(state: MemoryState, gradient: MemoryState)
    ensures
        ({
            let s_min = Single { bits: S_MIN };
            let s_max = Single { bits: S_MAX };
            let d_min = Single { bits: D_MIN };
            let d_max = Single { bits: D_MAX };
            let r = lane_before_bounding(state, gradient);
            &&& s_min.below(state.stability) && state.stability.below(s_max) ==> r.stability
                == gradient.stability
            &&& state.stability.at_most(s_min) || s_max.at_most(state.stability)
                || state.stability.nan() ==> r.stability == Single::zero()
            &&& d_min.below(state.difficulty) && state.difficulty.below(d_max) ==> r.difficulty
                == gradient.difficulty
            &&& state.difficulty.at_most(d_min) || d_max.at_most(state.difficulty)
                || state.difficulty.nan() ==> r.difficulty == Single::zero()
            &&& s_min.below(state.stability_fast) && state.stability_fast.below(s_max)
                ==> r.stability_fast == gradient.stability_fast
            &&& state.stability_fast.at_most(s_min) || s_max.at_most(state.stability_fast)
                || state.stability_fast.nan() ==> r.stability_fast == Single::zero()
        }),
{
}

/// In a row of eight, the gradients of the columns that were reviewed and those of the columns
/// of padding are told apart: each is in one of the two and 0 in the other.
pub proof fn law_gradients_are_parted(
    raw: State8,
    ratings: [u32; 8],
    flowing: State8,
    passing: State8,
    l: int,
)
    requires
        parted(raw, ratings, flowing, passing),
        0 <= l < 8,
    ensures
        ratings[l] != 0 ==> flowing.lane(l) == raw.lane(l) && passing.lane(l) == MemoryState::zeros(),
        ratings[l] == 0 ==> passing.lane(l) == raw.lane(l) && flowing.lane(l) == MemoryState::zeros(),
{
}

/// What is computed for eight columns at once: first states from ratings that are held
/// between 1 and 4; later ones from the states before, held in range, and the ratings as they
/// are, with the states before in the columns of padding.
pub proof fn law_what_eight_reviews_come_from<I, U>(
    initial: I,
    update: U,
    held: [u32; 8],
    ratings: [u32; 8],
    last: State8,
    updated: State8,
    raw: State8,
    l: int,
) where I: Fn([u32; 8]) -> State8, U: Fn(State8, [u32; 8]) -> State8
    requires
        0 <= l < 8,
    ensures
        began(initial, held, ratings, raw) ==> call_ensures(initial, (held,), raw) && 1 <= held[l]
            <= 4 && (1 <= ratings[l] <= 4 ==> held[l] == ratings[l]),
        went_on(update, last, ratings, updated, raw) ==> call_ensures(
            update,
            (last, ratings),
            updated,
        ),
        went_on(update, last, ratings, updated, raw) && ratings[l] == 0 ==> raw.lane(l) == last.lane(
            l,
        ),
        went_on(update, last, ratings, updated, raw) && ratings[l] != 0 ==> raw.lane(l)
            == updated.lane(l),
{
    if began(initial, held, ratings, raw) {
        assert(held[l] == crate::step::held_rating(ratings[l]));
    }
}

/// What takes the gradients of eight columns back: `initial` from the gradients so far, the
/// held ratings and the gradients of the states; `update` from those so far, those of the
/// columns that were reviewed and those of the columns of padding.
pub proof fn law_what_takes_eight_gradients_back<W, I, U>(
    initial: I,
    update: U,
    weights: W,
    held: [u32; 8],
    ratings: [u32; 8],
    raw: State8,
    flowing: State8,
    passing: State8,
    last: State8,
    total: W,
    l: int,
) where I: Fn(W, [u32; 8], State8) -> W, U: Fn(W, State8, State8) -> (State8, W)
    requires
        0 <= l < 8,
    ensures
        began_back(initial, weights, held, ratings, raw, total) ==> call_ensures(
            initial,
            (weights, held, raw),
            total,
        ) && 1 <= held[l] <= 4 && (1 <= ratings[l] <= 4 ==> held[l] == ratings[l]),
        went_back(update, weights, flowing, passing, last, total) ==> call_ensures(
            update,
            (weights, flowing, passing),
            (last, total),
        ),
{
    if began_back(initial, weights, held, ratings, raw, total) {
        assert(held[l] == crate::step::held_rating(ratings[l]));
    }
}

} // verus!
