//! The parameters of the model: their defaults, their ranges, and how a given
//! vector of parameters is checked and clipped.

use crate::error::FSRSError;
use crate::single::Single;
use vstd::prelude::*;

verus! {

/// How many parameters the model has.
pub const PARAM_LEN: usize = 34;

/// The default parameters, as binary32 patterns.
pub const DEFAULT_PARAMETERS: [u32; 34] = [
    0x3de2_1965,  // 0.1104, initial stability after Again
    0x400f_53f8,  // 2.2395, initial stability after Hard
    0x407b_03b0,  // 3.9221, initial stability after Good
    0x413c_8bac,  // 11.7841, initial stability after Easy
    0x40c5_652c,  // 6.1686, initial difficulty, level
    0x3f25_4c98,  // 0.6457, initial difficulty, slope
    0x406b_9097,  // 3.6807, difficulty step
    0x3ffd_6042,  // 1.9795, slow trace: increase, base
    0x0000_0000,  // 0.0, slow trace: increase, stability exponent
    0x3fb0_f909,  // 1.3826, slow trace: increase, retrievability factor
    0x3f33_d07d,  // 0.7024, slow trace: lapse, factor
    0x3f19_930c,  // 0.5999, slow trace: lapse, stability exponent
    0x3f50_89a0,  // 0.8146, slow trace: lapse, retrievability factor
    0x3f23_c9ef,  // 0.6398, slow trace: Hard penalty
    0x3f80_0000,  // 1.0, slow trace: Easy bonus
    0x3fa9_0cb3,  // 1.3207, fast trace: increase, base
    0x3f2b_b2ff,  // 0.6707, fast trace: increase, stability exponent
    0x4077_79a7,  // 3.8668, fast trace: increase, retrievability factor
    0x3ee2_1965,  // 0.4416, fast trace: lapse, factor
    0x3dbf_4880,  // 0.0934, fast trace: lapse, stability exponent
    0x3fee_7a10,  // 1.8631, fast trace: lapse, retrievability factor
    0x3f1d_bf48,  // 0.6162, fast trace: Hard penalty
    0x3f8b_1f8a,  // 1.0869, fast trace: Easy bonus
    0x3e20_75f7,  // 0.1567, curve: decay 1
    0x3da4_0b78,  // 0.0801, curve: decay 2
    0x3e77_e910,  // 0.2421, curve: base 1
    0x3f72_4745,  // 0.9464, curve: base 2
    0x3e12_bd3c,  // 0.1433, curve: weight 1
    0x3f36_e979,  // 0.7145, curve: weight 2
    0x0000_0000,  // 0.0, curve: stability power 1
    0x3f11_1340,  // 0.5667, curve: stability power 2
    0x3ebf_2e49,  // 0.3734, curve: difficulty in the weight, stored 0.5 up
    0x3f08_8659,  // 0.5333, curve: difficulty in the time scale, stored 0.3 up
    0x3e9c_0ebf,  // 0.3048, curve: stability in decay 1, stored 0.3 up
];

/// The lowest value that clipping leaves in each place, as binary32 patterns.
pub const LOWEST: [u32; 34] = [
    0x38d1_b717,  // 0.0001, initial stability after Again
    0x38d1_b717,  // 0.0001, initial stability after Hard
    0x38d1_b717,  // 0.0001, initial stability after Good
    0x38d1_b717,  // 0.0001, initial stability after Easy
    0x3f80_0000,  // 1.0, initial difficulty, level
    0x3a83_126f,  // 0.001, initial difficulty, slope
    0x3dcc_cccd,  // 0.1, difficulty step
    0x0000_0000,  // 0.0, slow trace: increase, base
    0x0000_0000,  // 0.0, slow trace: increase, stability exponent
    0x3e99_999a,  // 0.3, slow trace: increase, retrievability factor
    0x3c23_d70a,  // 0.01, slow trace: lapse, factor
    0x3dcc_cccd,  // 0.1, slow trace: lapse, stability exponent
    0x0000_0000,  // 0.0, slow trace: lapse, retrievability factor
    0x0000_0000,  // 0.0, slow trace: Hard penalty
    0x3f80_0000,  // 1.0, slow trace: Easy bonus
    0x0000_0000,  // 0.0, fast trace: increase, base
    0x0000_0000,  // 0.0, fast trace: increase, stability exponent
    0x3f00_0000,  // 0.5, fast trace: increase, retrievability factor
    0x3a83_126f,  // 0.001, fast trace: lapse, factor
    0x3a83_126f,  // 0.001, fast trace: lapse, stability exponent
    0x0000_0000,  // 0.0, fast trace: lapse, retrievability factor
    0x0000_0000,  // 0.0, fast trace: Hard penalty
    0x3f80_0000,  // 1.0, fast trace: Easy bonus
    0x3c23_d70a,  // 0.01, curve: decay 1
    0x3c23_d70a,  // 0.01, curve: decay 2
    0x3e4c_cccd,  // 0.2, curve: base 1
    0x3f00_0000,  // 0.5, curve: base 2
    0x3c23_d70a,  // 0.01, curve: weight 1
    0x3dcc_cccd,  // 0.1, curve: weight 2
    0x0000_0000,  // 0.0, curve: stability power 1
    0x3dcc_cccd,  // 0.1, curve: stability power 2
    0x0000_0000,  // 0.0, curve: difficulty in the weight, stored 0.5 up
    0x0000_0000,  // 0.0, curve: difficulty in the time scale, stored 0.3 up
    0x0000_0000,  // 0.0, curve: stability in decay 1, stored 0.3 up
];

/// The highest value that clipping leaves in each place, as binary32 patterns.
pub const HIGHEST: [u32; 34] = [
    0x4248_0000,  // 50.0, initial stability after Again
    0x42c8_0000,  // 100.0, initial stability after Hard
    0x42c8_0000,  // 100.0, initial stability after Good
    0x42c8_0000,  // 100.0, initial stability after Easy
    0x4120_0000,  // 10.0, initial difficulty, level
    0x4080_0000,  // 4.0, initial difficulty, slope
    0x4080_0000,  // 4.0, difficulty step
    0x4080_0000,  // 4.0, slow trace: increase, base
    0x3f99_999a,  // 1.2, slow trace: increase, stability exponent
    0x4040_0000,  // 3.0, slow trace: increase, retrievability factor
    0x3fc0_0000,  // 1.5, slow trace: lapse, factor
    0x3f80_0000,  // 1.0, slow trace: lapse, stability exponent
    0x4060_0000,  // 3.5, slow trace: lapse, retrievability factor
    0x3f80_0000,  // 1.0, slow trace: Hard penalty
    0x40e0_0000,  // 7.0, slow trace: Easy bonus
    0x4080_0000,  // 4.0, fast trace: increase, base
    0x4000_0000,  // 2.0, fast trace: increase, stability exponent
    0x40c0_0000,  // 6.0, fast trace: increase, retrievability factor
    0x3fc0_0000,  // 1.5, fast trace: lapse, factor
    0x3f80_0000,  // 1.0, fast trace: lapse, stability exponent
    0x40a0_0000,  // 5.0, fast trace: lapse, retrievability factor
    0x3f80_0000,  // 1.0, fast trace: Hard penalty
    0x40e0_0000,  // 7.0, fast trace: Easy bonus
    0x3e80_0000,  // 0.25, curve: decay 1
    0x3f73_3333,  // 0.95, curve: decay 2
    0x3f59_999a,  // 0.85, curve: base 1
    0x3f7d_70a4,  // 0.99, curve: base 2
    0x3f80_0000,  // 1.0, curve: weight 1
    0x3f80_0000,  // 1.0, curve: weight 2
    0x3f66_6666,  // 0.9, curve: stability power 1
    0x3f8c_cccd,  // 1.1, curve: stability power 2
    0x3f80_0000,  // 1.0, curve: difficulty in the weight, stored 0.5 up
    0x3f19_999a,  // 0.6, curve: difficulty in the time scale, stored 0.3 up
    0x3f19_999a,  // 0.6, curve: stability in decay 1, stored 0.3 up
];

/// The default parameters.
pub open spec fn defaults() -> Seq<Single> {
    Seq::new(34, |i: int| (Single { bits: DEFAULT_PARAMETERS[i] }))
}

/// The lowest value that clipping leaves in place `i`.
pub open spec fn lowest(i: int) -> Single {
    Single { bits: LOWEST[i] }
}

/// The highest value that clipping leaves in place `i`.
pub open spec fn highest(i: int) -> Single {
    Single { bits: HIGHEST[i] }
}

/// `value` held between two ends that need be neither finite nor in order: an end that
/// is not finite is taken as 0 (the low one) or as the low one (the high one), ends in
/// the wrong order change places, and a value that is not finite becomes the low end.
pub open spec fn safely_held(value: Single, low: Single, high: Single) -> Single {
    let a = if low.finite() {
        low
    } else {
        Single::zero()
    };
    let b = if high.finite() {
        high
    } else {
        a
    };
    let bottom = if a.at_most(b) {
        a
    } else {
        b
    };
    let top = if a.at_most(b) {
        b
    } else {
        a
    };
    let v = if value.finite() {
        value
    } else {
        bottom
    };
    v.held(bottom, top)
}

/// Holds `value` between two ends, whatever the three patterns are.
pub fn clamp_safe(value: Single, low: Single, high: Single) -> (r: Single)
    ensures
        r == safely_held(value, low, high),
{
    let a = if low.is_finite() {
        low
    } else {
        Single::zero()
    };
    let b = if high.is_finite() {
        high
    } else {
        a
    };
    let (bottom, top) = if a.le(b) {
        (a, b)
    } else {
        (b, a)
    };
    let v = if value.is_finite() {
        value
    } else {
        bottom
    };
    v.clamp(bottom, top)
}

/// Each of the first 34 places held in its own range.
pub open spec fn boxed(p: Seq<Single>) -> Seq<Single> {
    Seq::new(
        p.len(),
        |i: int|
            if i < 34 {
                safely_held(p[i], lowest(i), highest(i))
            } else {
                p[i]
            },
    )
}

/// The parameters that clipping makes of `p`: each place in its own range, then initial
/// stability raised so that it does not fall with the rating, then base 2 raised to base 1.
/// Fewer than 34 parameters are left alone.
pub open spec fn clipped(p: Seq<Single>) -> Seq<Single> {
    if p.len() < 34 {
        p
    } else {
        let b = boxed(p);
        let b1 = b.update(1, b[1].larger(b[0]));
        let b2 = b1.update(2, b1[2].larger(b1[1]));
        let b3 = b2.update(3, b2[3].larger(b2[2]));
        b3.update(26, b3[26].larger(b3[25]))
    }
}

/// Clips parameters in place.
fn clip_fsrs7_parameters(parameters: &mut Vec<Single>)
    ensures
        final(parameters)@ == clipped(old(parameters)@),
{
    if parameters.len() < PARAM_LEN {
        return ;
    }
    let ghost before = parameters@;
    let mut i: usize = 0;
    while i < PARAM_LEN
        invariant
            i <= 34,
            before.len() >= 34,
            parameters@.len() == before.len(),
            forall|j: int| 0 <= j < i ==> parameters@[j] == boxed(before)[j],
            forall|j: int| i <= j < before.len() ==> parameters@[j] == before[j],
        decreases PARAM_LEN - i,
    {
        let held = clamp_safe(
            parameters[i],
            Single::from_bits(LOWEST[i]),
            Single::from_bits(HIGHEST[i]),
        );
        parameters.set(i, held);
        i += 1;
    }
    assert(parameters@ =~= boxed(before));
    let p1 = parameters[1].max(parameters[0]);
    parameters.set(1, p1);
    let p2 = parameters[2].max(parameters[1]);
    parameters.set(2, p2);
    let p3 = parameters[3].max(parameters[2]);
    parameters.set(3, p3);
    let p26 = parameters[26].max(parameters[25]);
    parameters.set(26, p26);
}

/// The clipped parameters.
pub fn clip_parameters(parameters: &[Single]) -> (r: Vec<Single>)
    ensures
        r@ == clipped(parameters@),
{
    let mut r = copied(parameters);
    clip_fsrs7_parameters(&mut r);
    r
}

/// The same numbers in a vector of their own.
pub fn copied(numbers: &[Single]) -> (r: Vec<Single>)
    ensures
        r@ == numbers@,
{
    let mut r: Vec<Single> = Vec::with_capacity(numbers.len());
    let mut i: usize = 0;
    while i < numbers.len()
        invariant
            i <= numbers@.len(),
            r@ == numbers@.take(i as int),
        decreases numbers@.len() - i,
    {
        r.push(numbers[i]);
        i += 1;
        assert(numbers@.take(i as int) =~= numbers@.take(i - 1).push(numbers@[i - 1]));
    }
    assert(numbers@.take(i as int) =~= numbers@);
    r
}

/// The default parameters.
pub fn default_parameters() -> (r: Vec<Single>)
    ensures
        r@ == defaults(),
{
    let mut r: Vec<Single> = Vec::with_capacity(PARAM_LEN);
    let mut i: usize = 0;
    while i < PARAM_LEN
        invariant
            i <= 34,
            r@ == defaults().take(i as int),
        decreases PARAM_LEN - i,
    {
        r.push(Single::from_bits(DEFAULT_PARAMETERS[i]));
        i += 1;
        assert(defaults().take(i as int) =~= defaults().take(i - 1).push(defaults()[i - 1]));
    }
    assert(defaults().take(34) =~= defaults());
    r
}

/// The parameters that are meant by `p`: none given stands for the defaults.
pub open spec fn filled(p: Seq<Single>) -> Seq<Single> {
    if p.len() == 0 {
        defaults()
    } else {
        p
    }
}

/// Whether `p` can be used as parameters: none, or 34 that are all finite.
pub open spec fn acceptable(p: Seq<Single>) -> bool {
    p.len() == 0 || (p.len() == 34 && forall|i: int| 0 <= i < 34 ==> (#[trigger] p[i]).finite())
}

/// Checks parameters and fills in the defaults where none are given.
pub fn check_and_fill_parameters(parameters: &[Single]) -> (r: Result<Vec<Single>, FSRSError>)
    ensures
        r is Ok <==> acceptable(parameters@),
        r matches Ok(p) ==> p@ == filled(parameters@),
        r matches Err(e) ==> e == FSRSError::InvalidParameters,
{
    let filled_in = if parameters.len() == 0 {
        default_parameters()
    } else if parameters.len() == PARAM_LEN {
        copied(parameters)
    } else {
        return Err(FSRSError::InvalidParameters);
    };
    let mut i: usize = 0;
    while i < filled_in.len()
        invariant
            i <= filled_in@.len(),
            filled_in@ == filled(parameters@),
            parameters@.len() == 0 || parameters@.len() == 34,
            forall|j: int| 0 <= j < i ==> (#[trigger] filled_in@[j]).finite(),
        decreases filled_in@.len() - i,
    {
        if !filled_in[i].is_finite() {
            proof {
                lemma_tables();
                assert(!filled_in@[i as int].finite());
            }
            return Err(FSRSError::InvalidParameters);
        }
        i += 1;
    }
    Ok(filled_in)
}

/// The tables are sound: every range is finite and not empty, and holds its default.
pub proof fn lemma_tables()
    ensures
        forall|i: int|
            0 <= i < 34 ==> {
                &&& (#[trigger] lowest(i)).finite()
                &&& highest(i).finite()
                &&& lowest(i).rank() <= defaults()[i].rank() <= highest(i).rank()
                &&& defaults()[i].finite()
            },
{
    assert forall|i: int| 0 <= i < 34 implies {
        &&& (#[trigger] lowest(i)).finite()
        &&& highest(i).finite()
        &&& lowest(i).rank() <= defaults()[i].rank() <= highest(i).rank()
        &&& defaults()[i].finite()
    } by {
        if i < 9 {
            assert(i == 0 || i == 1 || i == 2 || i == 3 || i == 4 || i == 5 || i == 6 || i == 7 || i == 8);
        } else if i < 18 {
            assert(i == 9 || i == 10 || i == 11 || i == 12 || i == 13 || i == 14 || i == 15 || i == 16
                || i == 17);
        } else if i < 26 {
            assert(i == 18 || i == 19 || i == 20 || i == 21 || i == 22 || i == 23 || i == 24 || i == 25);
        } else {
            assert(i == 26 || i == 27 || i == 28 || i == 29 || i == 30 || i == 31 || i == 32 || i == 33);
        }
    }
}

proof fn lemma_range(i: int)
    requires
        0 <= i < 34,
    ensures
        lowest(i).finite(),
        highest(i).finite(),
        lowest(i).at_most(highest(i)),
        lowest(i).at_most(defaults()[i]),
        defaults()[i].at_most(highest(i)),
        defaults()[i].finite(),
{
    lemma_tables();
    lowest(i).lemma_rank(highest(i));
    lowest(i).lemma_rank(defaults()[i]);
    defaults()[i].lemma_rank(highest(i));
}

/// Whatever the three patterns are, `clamp_safe` gives a finite number, between the ends
/// where these are finite and in order, and leaves a number that is there already.
pub proof fn law_clamp_safe_is_safe(value: Single, low: Single, high: Single)
    ensures
        safely_held(value, low, high).finite(),
        low.finite() && high.finite() && low.at_most(high) ==> {
            &&& low.at_most(safely_held(value, low, high))
            &&& safely_held(value, low, high).at_most(high)
            &&& low.at_most(value) && value.at_most(high) ==> safely_held(value, low, high) == value
        },
{
    let a = if low.finite() {
        low
    } else {
        Single::zero()
    };
    let b = if high.finite() {
        high
    } else {
        a
    };
    let (bottom, top) = if a.at_most(b) {
        (a, b)
    } else {
        (b, a)
    };
    let v = if value.finite() {
        value
    } else {
        bottom
    };
    v.lemma_held(bottom, top);
    value.lemma_rank(low);
    value.lemma_rank(high);
}

/// Whether `p` holds at least 34 parameters that clipping has nothing to change in: each
/// of the first 34 is a number in its range, initial stability does not fall with the
/// rating, and base 2 is not below base 1.
pub open spec fn in_ranges(p: Seq<Single>) -> bool {
    &&& p.len() >= 34
    &&& forall|i: int|
        0 <= i < 34 ==> lowest(i).at_most(#[trigger] p[i]) && p[i].at_most(highest(i))
    &&& p[0].at_most(p[1]) && p[1].at_most(p[2]) && p[2].at_most(p[3])
    &&& p[25].at_most(p[26])
}

/// Clipping puts every parameter into its range and in order, makes it finite, and
/// touches nothing after the first 34.
pub proof fn law_clipped_parameters_are_in_range(p: Seq<Single>)
    requires
        p.len() >= 34,
    ensures
        in_ranges(clipped(p)),
        clipped(p).len() == p.len(),
        forall|i: int| 0 <= i < 34 ==> (#[trigger] clipped(p)[i]).finite(),
        forall|i: int| 34 <= i < p.len() ==> clipped(p)[i] == p[i],
{
    let b = boxed(p);
    assert forall|i: int| 0 <= i < 34 implies {
        &&& lowest(i).at_most(#[trigger] b[i])
        &&& b[i].at_most(highest(i))
        &&& b[i].finite()
    } by {
        lemma_range(i);
        law_clamp_safe_is_safe(p[i], lowest(i), highest(i));
    }
    highest(0).lemma_rank(highest(1));
    highest(1).lemma_rank(highest(2));
    highest(2).lemma_rank(highest(3));
    highest(25).lemma_rank(highest(26));
    assert(b[0] == clipped(p)[0]);
}

/// Clipping leaves parameters that are in their ranges and in order.
pub proof fn law_clipping_leaves_what_is_in_range(p: Seq<Single>)
    requires
        in_ranges(p),
    ensures
        clipped(p) == p,
{
    assert forall|i: int| 0 <= i < 34 implies boxed(p)[i] == p[i] by {
        lemma_range(i);
        law_clamp_safe_is_safe(p[i], lowest(i), highest(i));
    }
    assert(boxed(p) =~= p);
    assert(clipped(p) =~= p);
}

/// Clipping twice is clipping once.
pub proof fn law_clipping_twice_is_clipping_once(p: Seq<Single>)
    ensures
        clipped(clipped(p)) == clipped(p),
{
    if p.len() >= 34 {
        law_clipped_parameters_are_in_range(p);
        law_clipping_leaves_what_is_in_range(clipped(p));
    }
}

/// The default parameters are acceptable, and clipping leaves them.
pub proof fn law_defaults_are_in_range()
    ensures
        in_ranges(defaults()),
        acceptable(defaults()),
        clipped(defaults()) == defaults(),
{
    assert forall|i: int| 0 <= i < 34 implies {
        &&& lowest(i).at_most(#[trigger] defaults()[i])
        &&& defaults()[i].at_most(highest(i))
        &&& defaults()[i].finite()
    } by {
        lemma_range(i);
    }
    defaults()[0].lemma_rank(defaults()[1]);
    defaults()[1].lemma_rank(defaults()[2]);
    defaults()[2].lemma_rank(defaults()[3]);
    defaults()[25].lemma_rank(defaults()[26]);
    law_clipping_leaves_what_is_in_range(defaults());
}

/// Whatever the value, holding it between finite ends that are in order gives the nearest
/// number between them: the value itself where it lies there, the low end where it is
/// smaller or not finite, and the high end where it is larger.
pub proof fn law_clamp_safe_gives_the_nearest(value: Single, low: Single, high: Single)
    requires
        low.finite(),
        high.finite(),
        low.at_most(high),
    ensures
        !value.finite() ==> safely_held(value, low, high) == low,
        value.finite() && value.below(low) ==> safely_held(value, low, high) == low,
        value.finite() && high.below(value) ==> safely_held(value, low, high) == high,
        value.finite() && low.at_most(value) && value.at_most(high) ==> safely_held(
            value,
            low,
            high,
        ) == value,
{
}

/// Ends that are given in the wrong order change places, and a low end that is not finite
/// counts as 0.
pub proof fn law_clamp_safe_takes_any_ends(value: Single, low: Single, high: Single)
    ensures
        low.finite() && high.finite() ==> safely_held(value, low, high).same(
            safely_held(value, high, low),
        ),
        !low.finite() ==> safely_held(value, low, high) == safely_held(value, Single::zero(), high),
        !high.finite() && low.finite() ==> safely_held(value, low, high).same(low),
{
    crate::single::lemma_zero();
    value.lemma_rank(low);
    value.lemma_rank(high);
    low.lemma_rank(high);
}

/// Clipping raises initial stability no more than it must: each of places 0 to 3 is the
/// largest of the numbers that putting the places up to it into their ranges gives, and is
/// one of them. So too base 2, of the two bases. Every other parameter is the number that
/// putting it into its own range gives.
pub proof fn law_clipping_raises_to_the_largest_before(p: Seq<Single>)
    requires
        p.len() >= 34,
    ensures
        forall|i: int, j: int|
            0 <= j <= i < 4 ==> (#[trigger] safely_held(p[j], lowest(j), highest(j))).at_most(
                #[trigger] clipped(p)[i],
            ),
        forall|i: int|
            0 <= i < 4 ==> exists|j: int|
                0 <= j <= i && #[trigger] clipped(p)[i] == #[trigger] safely_held(
                    p[j],
                    lowest(j),
                    highest(j),
                ),
        clipped(p)[0] == safely_held(p[0], lowest(0), highest(0)),
        safely_held(p[25], lowest(25), highest(25)).at_most(clipped(p)[26]),
        safely_held(p[26], lowest(26), highest(26)).at_most(clipped(p)[26]),
        clipped(p)[26] == safely_held(p[25], lowest(25), highest(25)) || clipped(p)[26]
            == safely_held(p[26], lowest(26), highest(26)),
        forall|i: int|
            4 <= i < 34 && i != 26 ==> #[trigger] clipped(p)[i] == safely_held(
                p[i],
                lowest(i),
                highest(i),
            ),
{
    let b = boxed(p);
    let c = clipped(p);
    assert forall|i: int| 0 <= i < 34 implies #[trigger] b[i] == safely_held(
        p[i],
        lowest(i),
        highest(i),
    ) && b[i].finite() by {
        lemma_range(i);
        law_clamp_safe_is_safe(p[i], lowest(i), highest(i));
    }
    assert(b[0].finite() && b[1].finite() && b[2].finite() && b[3].finite() && b[25].finite()
        && b[26].finite());
    assert(c[0] == b[0]);
    assert(c[1] == b[1].larger(b[0]));
    assert(c[2] == b[2].larger(c[1]));
    assert(c[3] == b[3].larger(c[2]));
    assert forall|i: int| 0 <= i < 4 implies exists|j: int|
        0 <= j <= i && #[trigger] clipped(p)[i] == #[trigger] safely_held(
            p[j],
            lowest(j),
            highest(j),
        ) by {
        assert(b[0] == safely_held(p[0], lowest(0), highest(0)));
        assert(b[1] == safely_held(p[1], lowest(1), highest(1)));
        assert(b[2] == safely_held(p[2], lowest(2), highest(2)));
        assert(b[3] == safely_held(p[3], lowest(3), highest(3)));
        assert(c[1] == b[0] || c[1] == b[1]);
        assert(c[2] == b[0] || c[2] == b[1] || c[2] == b[2]);
        assert(c[3] == b[0] || c[3] == b[1] || c[3] == b[2] || c[3] == b[3]);
    }
    assert forall|i: int, j: int| 0 <= j <= i < 4 implies (#[trigger] safely_held(
        p[j],
        lowest(j),
        highest(j),
    )).at_most(#[trigger] clipped(p)[i]) by {
        assert(b[j] == safely_held(p[j], lowest(j), highest(j)));
        assert(b[0].at_most(c[0]) && b[0].at_most(c[1]) && b[1].at_most(c[1]));
        assert(c[1].at_most(c[2]) && b[2].at_most(c[2]));
        assert(c[2].at_most(c[3]) && b[3].at_most(c[3]));
    }
    assert forall|i: int| 4 <= i < 34 && i != 26 implies #[trigger] clipped(p)[i] == safely_held(
        p[i],
        lowest(i),
        highest(i),
    ) by {
        assert(c[i] == b[i]);
    }
    assert(c[26] == b[26].larger(b[25]));
    assert(b[25] == safely_held(p[25], lowest(25), highest(25)));
    assert(b[26] == safely_held(p[26], lowest(26), highest(26)));
}

proof fn lemma_below(x: Single, y: Single, z: Single)
    requires
        x.at_most(y),
        y.at_most(z),
    ensures
        x.at_most(z),
{
}

/// No parameters that are in their ranges and in order, and nowhere below what putting each
/// parameter into its own range gives, are anywhere below the clipped ones: clipping gives
/// the smallest of them.
pub proof fn law_clipping_gives_the_smallest(p: Seq<Single>, q: Seq<Single>, i: int)
    requires
        p.len() >= 34,
        in_ranges(q),
        forall|j: int|
            0 <= j < 34 ==> safely_held(p[j], lowest(j), highest(j)).at_most(#[trigger] q[j]),
        0 <= i < 34,
    ensures
        clipped(p)[i].at_most(q[i]),
{
    law_clipping_raises_to_the_largest_before(p);
    let c = clipped(p)[i];
    let x = q[i];
    if i < 4 {
        let j = choose|j: int|
            0 <= j <= i && c == #[trigger] safely_held(p[j], lowest(j), highest(j));
        assert(c.at_most(q[j]));
        lemma_in_order(q, j, i);
        lemma_below(c, q[j], x);
    } else if i == 26 {
        let y = q[25];
        assert(safely_held(p[25], lowest(25), highest(25)).at_most(y));
        assert(safely_held(p[26], lowest(26), highest(26)).at_most(x));
        assert(y.at_most(x));
        if c == safely_held(p[25], lowest(25), highest(25)) {
            lemma_below(c, y, x);
        }
    } else {
        assert(c == safely_held(p[i], lowest(i), highest(i)));
    }
}

proof fn lemma_in_order(q: Seq<Single>, j: int, i: int)
    requires
        in_ranges(q),
        0 <= j <= i < 4,
    ensures
        q[j].at_most(q[i]),
    decreases i - j,
{
    let (a, b, c, d) = (q[0], q[1], q[2], q[3]);
    assert(lowest(j).at_most(q[j]));
    assert(a.at_most(b) && b.at_most(c) && c.at_most(d));
    lemma_below(a, b, c);
    lemma_below(b, c, d);
    lemma_below(a, c, d);
}

/// Parameters are refused if and only if there are some, and not 34 of them or one that is
/// not finite: infinite, or not a number.
pub proof fn law_what_is_refused(p: Seq<Single>)
    ensures
        !acceptable(p) <==> p.len() > 0 && (p.len() != 34 || exists|i: int|
            0 <= i < p.len() && ((#[trigger] p[i]).nan() || p[i].fields() == 0x7f80_0000)),
        p.len() > 0 ==> filled(p) == p,
        p.len() == 0 ==> filled(p).len() == 34 && forall|i: int|
            0 <= i < 34 ==> (#[trigger] filled(p)[i]).bits == DEFAULT_PARAMETERS[i],
{
    if exists|i: int| 0 <= i < p.len() && ((#[trigger] p[i]).nan() || p[i].fields() == 0x7f80_0000) {
        let i = choose|i: int|
            0 <= i < p.len() && ((#[trigger] p[i]).nan() || p[i].fields() == 0x7f80_0000);
        assert(!p[i].finite());
    } else if p.len() == 34 {
        assert forall|i: int| 0 <= i < 34 implies (#[trigger] p[i]).finite() by {
            assert(!(p[i].nan() || p[i].fields() == 0x7f80_0000));
        }
    }
}

} // verus!
