//! Penalties on parameters, and how their gradients are put together.

use crate::double::Double;
use crate::dual::{Dual35, GRAD_LEN};
use crate::single::Single;
use vstd::prelude::*;

verus! {

/// The number of parameters that the schedule penalty needs.
pub const PENALTY_PARAM_LEN: usize = 36;

/// A gradient without the entries that are not finite: they become 0.
pub open spec fn finite_entries(grad: Seq<Single>) -> Seq<Single> {
    grad.map_values(
        |g: Single|
            if g.finite() {
                g
            } else {
                Single::zero()
            },
    )
}

/// A gradient without the entries that are not finite: they become 0.
pub open spec fn finite_entries_64(grad: Seq<Double>) -> Seq<Double> {
    grad.map_values(
        |g: Double|
            if g.finite() {
                g
            } else {
                Double { bits: 0 }
            },
    )
}

/// `n` zeros.
pub open spec fn zeros(n: nat) -> Seq<Single> {
    Seq::new(n, |i: int| Single::zero())
}

/// How many parameters are pulled back to where they started: as many as have a value, a
/// start and a spread.
pub fn l2_size(w: usize, init_w: usize, params_stddev: usize) -> (r: usize)
    ensures
        r <= w,
        r <= init_w,
        r <= params_stddev,
        r == w || r == init_w || r == params_stddev,
{
    let a: usize = if init_w < w {
        init_w
    } else {
        w
    };
    if params_stddev < a {
        params_stddev
    } else {
        a
    }
}

/// The L2 penalty and its gradient, from what was computed: none where there are no items
/// or the penalty is not finite, and without the entries that are not finite.
pub fn l2_penalty(total_size: usize, penalty: Double, grad: Vec<Single>) -> (r: (Double, Vec<Single>))
    ensures
        total_size == 0 || !penalty.finite() ==> r.0 == (Double { bits: 0 }) && r.1@ == zeros(
            grad@.len(),
        ),
        total_size > 0 && penalty.finite() ==> r.0 == penalty && r.1@ == finite_entries(grad@),
{
    if total_size == 0 || !penalty.is_finite() {
        let mut none: Vec<Single> = Vec::with_capacity(grad.len());
        let mut i: usize = 0;
        while i < grad.len()
            invariant
                i <= grad@.len(),
                none@ == zeros(i as nat),
            decreases grad@.len() - i,
        {
            none.push(Single::zero());
            i += 1;
            assert(zeros(i as nat) =~= zeros((i - 1) as nat).push(Single::zero()));
        }
        return (Double::from_bits(0), none);
    }
    let mut left: Vec<Single> = Vec::with_capacity(grad.len());
    let mut i: usize = 0;
    while i < grad.len()
        invariant
            i <= grad@.len(),
            left@ == finite_entries(grad@).take(i as int),
        decreases grad@.len() - i,
    {
        left.push(
            if grad[i].is_finite() {
                grad[i]
            } else {
                Single::zero()
            },
        );
        i += 1;
        assert(finite_entries(grad@).take(i as int) =~= finite_entries(grad@).take(i - 1).push(
            finite_entries(grad@)[i - 1],
        ));
    }
    assert(finite_entries(grad@).take(i as int) =~= finite_entries(grad@));
    (penalty, left)
}

/// What is known of one parameter's part of the L2 penalty: how much it adds, and its
/// slope.
pub open spec fn l2_part<T: Fn(usize) -> (Double, Single)>(
    part: T,
    i: int,
    amount: Double,
    slope: Single,
) -> bool {
    call_ensures(part, (i as usize,), (amount, slope))
}

/// Whether `slopes` may be the gradient of the L2 penalty, and `penalty` the penalty,
/// before what is not finite is taken away: the parts of `size` parameters are added up
/// and scaled, and the slope by the others is 0.
pub open spec fn l2_computed<T, P, C>(
    part: T,
    plus: P,
    scale: C,
    size: nat,
    amounts: Seq<Double>,
    slopes: Seq<Single>,
    sum: Double,
    penalty: Double,
) -> bool where
    T: Fn(usize) -> (Double, Single),
    P: Fn(Double, Double) -> Double,
    C: Fn(Double) -> Double,
 {
    &&& amounts.len() == size <= slopes.len()
    &&& forall|i: int|
        0 <= i < size ==> #[trigger] l2_part(part, i, amounts[i], slopes[i])
    &&& forall|i: int| size <= i < slopes.len() ==> #[trigger] slopes[i] == Single::zero()
    &&& crate::losses::summed(plus, Double { bits: 0 }, amounts, sum)
    &&& call_ensures(scale, (sum,), penalty)
}

/// The L2 penalty and its gradient for `w` parameters, `init_w` starts and `params_stddev`
/// spreads. `part` gives what a parameter adds to the penalty, and its slope; `plus` adds,
/// and `scale` makes the penalty of the sum.
pub fn l2_penalty_value_and_grad<T, P, C>(
    w: usize,
    init_w: usize,
    params_stddev: usize,
    total_size: usize,
    part: &T,
    plus: &P,
    scale: &C,
) -> (r: (Double, Vec<Single>)) where
    T: Fn(usize) -> (Double, Single),
    P: Fn(Double, Double) -> Double,
    C: Fn(Double) -> Double,

    requires
        forall|i: usize| i < w && i < init_w && i < params_stddev ==> #[trigger] call_requires(
            *part,
            (i,),
        ),
        forall|a: Double, b: Double| #[trigger] call_requires(*plus, (a, b)),
        forall|a: Double| #[trigger] call_requires(*scale, (a,)),
    ensures
        r.1@.len() == w,
        total_size == 0 ==> r.0 == (Double { bits: 0 }) && r.1@ == zeros(w as nat),
        total_size > 0 ==> exists|
            size: nat,
            amounts: Seq<Double>,
            slopes: Seq<Single>,
            sum: Double,
            penalty: Double,
        |
            #![trigger l2_computed(*part, *plus, *scale, size, amounts, slopes, sum, penalty)]
            {
                &&& size <= w && size <= init_w && size <= params_stddev
                &&& size == w || size == init_w || size == params_stddev
                &&& slopes.len() == w
                &&& l2_computed(*part, *plus, *scale, size, amounts, slopes, sum, penalty)
                &&& r.0 == if penalty.finite() {
                    penalty
                } else {
                    Double { bits: 0 }
                }
                &&& r.1@ == if penalty.finite() {
                    finite_entries(slopes)
                } else {
                    zeros(w as nat)
                }
            },
{
    let size: usize = if total_size == 0 {
        0
    } else {
        l2_size(w, init_w, params_stddev)
    };
    let mut grad: Vec<Single> = Vec::with_capacity(w);
    let mut sum = Double::from_bits(0);
    let ghost mut amounts: Seq<Double> = Seq::empty();
    let mut i: usize = 0;
    proof {
        crate::losses::lemma_no_terms::<Double, Double, P>(*plus, sum);
    }
    while i < w
        invariant
            i <= w,
            size <= w,
            size <= init_w,
            size <= params_stddev,
            forall|i: usize|
                i < w && i < init_w && i < params_stddev ==> #[trigger] call_requires(*part, (i,)),
            forall|a: Double, b: Double| #[trigger] call_requires(*plus, (a, b)),
            grad@.len() == i,
            amounts.len() == if i < size {
                i
            } else {
                size
            },
            forall|j: int|
                0 <= j < amounts.len() ==> #[trigger] l2_part(*part, j, amounts[j], grad@[j]),
            forall|j: int| size <= j < i ==> #[trigger] grad@[j] == Single::zero(),
            crate::losses::summed(*plus, Double { bits: 0 }, amounts, sum),
        decreases w - i,
    {
        if i < size {
            let (amount, slope) = part(i);
            let ghost before = sum;
            let ghost grad_before = grad@;
            let ghost amounts_before = amounts;
            sum = plus(sum, amount);
            grad.push(slope);
            proof {
                crate::losses::lemma_one_more(
                    *plus,
                    Double { bits: 0 },
                    amounts,
                    before,
                    amount,
                    sum,
                );
                amounts = amounts.push(amount);
                assert forall|j: int| 0 <= j < amounts.len() implies #[trigger] l2_part(
                    *part,
                    j,
                    amounts[j],
                    grad@[j],
                ) by {
                    if j < i {
                        assert(l2_part(*part, j, amounts_before[j], grad_before[j]));
                    }
                }
            }
        } else {
            let ghost grad_before = grad@;
            grad.push(Single::zero());
            proof {
                assert forall|j: int| 0 <= j < amounts.len() implies #[trigger] l2_part(
                    *part,
                    j,
                    amounts[j],
                    grad@[j],
                ) by {
                    assert(l2_part(*part, j, amounts[j], grad_before[j]));
                }
            }
        }
        i += 1;
    }
    let ghost slopes = grad@;
    let penalty = scale(sum);
    assert(l2_computed(*part, *plus, *scale, size as nat, amounts, slopes, sum, penalty));
    l2_penalty(total_size, penalty, grad)
}

/// Whether the schedule penalty is computed: where it is enabled and there are enough
/// parameters.
pub fn penalizes_schedule(enabled: bool, parameters: usize) -> (r: bool)
    ensures
        r == (enabled && parameters >= 36),
{
    enabled && parameters >= PENALTY_PARAM_LEN
}

/// The schedule penalty and its gradient, from what was computed: none where the penalty
/// is not finite, and without the entries that are not finite.
pub fn schedule_penalty(penalty: &Dual35) -> (r: (Double, Vec<Double>))
    ensures
        r.1@.len() == 36,
        !penalty.value.finite() ==> r.0 == (Double { bits: 0 }) && forall|i: int|
            0 <= i < 36 ==> #[trigger] r.1@[i] == (Double { bits: 0 }),
        penalty.value.finite() ==> r.0 == penalty.value && r.1@ == finite_entries_64(
            penalty.grad@,
        ),
{
    let keep = penalty.value.is_finite();
    let mut left: Vec<Double> = Vec::with_capacity(GRAD_LEN);
    let mut i: usize = 0;
    while i < GRAD_LEN
        invariant
            i <= 36,
            left@.len() == i,
            forall|j: int|
                0 <= j < i ==> #[trigger] left@[j] == if keep && penalty.grad[j].finite() {
                    penalty.grad[j]
                } else {
                    Double { bits: 0 }
                },
        decreases 36 - i,
    {
        left.push(
            if keep && penalty.grad[i].is_finite() {
                penalty.grad[i]
            } else {
                Double::from_bits(0)
            },
        );
        i += 1;
    }
    if keep {
        assert(left@ =~= finite_entries_64(penalty.grad@));
        (penalty.value, left)
    } else {
        (Double::from_bits(0), left)
    }
}

/// No entry of a gradient that is used is infinite or not a number.
pub proof fn law_penalty_gradients_are_finite(grad: Seq<Single>, wide: Seq<Double>)
    ensures
        forall|i: int| 0 <= i < grad.len() ==> (#[trigger] finite_entries(grad)[i]).finite(),
        forall|i: int| 0 <= i < wide.len() ==> (#[trigger] finite_entries_64(wide)[i]).finite(),
        forall|n: nat, i: int| 0 <= i < n ==> (#[trigger] zeros(n)[i]).finite(),
{
}

/// The first of the parameters of the fast trace.
pub const FAST_START: usize = 15;

/// The first place after the parameters of the fast trace.
pub const FAST_END: usize = 23;

/// Whether training leaves parameter `i` alone: initial stability (places 0 to 3) or the
/// fast trace (places 15 to 22), where they are frozen.
pub open spec fn is_frozen(freeze_initial: bool, freeze_fast: bool, i: int) -> bool {
    (freeze_initial && 0 <= i < 4) || (freeze_fast && 15 <= i < 23)
}

/// The gradient with that by frozen parameters taken away.
pub open spec fn frozen(grad: Seq<Single>, freeze_initial: bool, freeze_fast: bool) -> Seq<Single> {
    Seq::new(
        grad.len(),
        |i: int|
            if is_frozen(freeze_initial, freeze_fast, i) {
                Single::zero()
            } else {
                grad[i]
            },
    )
}

/// Takes the gradient by frozen parameters away.
pub fn freeze(grad: &mut Vec<Single>, freeze_initial: bool, freeze_fast: bool)
    ensures
        final(grad)@ == frozen(old(grad)@, freeze_initial, freeze_fast),
{
    let ghost before = grad@;
    let mut i: usize = 0;
    while i < grad.len()
        invariant
            i <= grad@.len(),
            grad@.len() == before.len(),
            forall|j: int|
                0 <= j < i ==> #[trigger] grad@[j] == frozen(before, freeze_initial, freeze_fast)[j],
            forall|j: int| i <= j < before.len() ==> #[trigger] grad@[j] == before[j],
        decreases grad@.len() - i,
    {
        if (freeze_initial && i < 4) || (freeze_fast && FAST_START <= i && i < FAST_END) {
            grad.set(i, Single::zero());
        }
        i += 1;
    }
    assert(grad@ =~= frozen(before, freeze_initial, freeze_fast));
}

/// Entries of a gradient that are finite are used as they are, negative ones among them, and
/// the others become 0; no entry is lost or moved.
pub proof fn law_finite_entries_stay(grad: Seq<Single>, wide: Seq<Double>, i: int)
    ensures
        finite_entries(grad).len() == grad.len(),
        0 <= i < grad.len() && grad[i].finite() ==> finite_entries(grad)[i] == grad[i],
        0 <= i < grad.len() && !grad[i].finite() ==> finite_entries(grad)[i] == Single::zero(),
        finite_entries_64(wide).len() == wide.len(),
        0 <= i < wide.len() && wide[i].finite() ==> finite_entries_64(wide)[i] == wide[i],
        0 <= i < wide.len() && !wide[i].finite() ==> finite_entries_64(wide)[i] == (Double {
            bits: 0,
        }),
{
}

/// What freezing takes away of a gradient: the entries of places 0, 1, 2 and 3 where initial
/// stability is frozen, and those of places 15 to 22 where the fast trace is. Every other
/// entry is left as it is.
pub proof fn law_freezing_takes_nothing_else(
    grad: Seq<Single>,
    freeze_initial: bool,
    freeze_fast: bool,
    i: int,
)
    requires
        0 <= i < grad.len(),
    ensures
        frozen(grad, freeze_initial, freeze_fast).len() == grad.len(),
        i <= 3 ==> frozen(grad, freeze_initial, freeze_fast)[i] == if freeze_initial {
            Single::zero()
        } else {
            grad[i]
        },
        15 <= i <= 22 ==> frozen(grad, freeze_initial, freeze_fast)[i] == if freeze_fast {
            Single::zero()
        } else {
            grad[i]
        },
        4 <= i <= 14 || i >= 23 ==> frozen(grad, freeze_initial, freeze_fast)[i] == grad[i],
        frozen(frozen(grad, freeze_initial, freeze_fast), freeze_initial, freeze_fast) == frozen(
            grad,
            freeze_initial,
            freeze_fast,
        ),
{
    assert(frozen(frozen(grad, freeze_initial, freeze_fast), freeze_initial, freeze_fast)
        =~= frozen(grad, freeze_initial, freeze_fast));
}

/// The parts of the L2 penalty are those of the first parameters, each in its own place, and
/// each is counted once: with numbers that add up as whole numbers do, the sum is theirs.
pub proof fn law_penalty_parts_belong_to_their_parameters<T, P, C>(
    part: T,
    plus: P,
    scale: C,
    size: nat,
    amounts: Seq<Double>,
    slopes: Seq<Single>,
    sum: Double,
    penalty: Double,
    i: int,
) where
    T: Fn(usize) -> (Double, Single),
    P: Fn(Double, Double) -> Double,
    C: Fn(Double) -> Double,

    requires
        l2_computed(part, plus, scale, size, amounts, slopes, sum, penalty),
        0 <= i < slopes.len(),
    ensures
        i < size ==> call_ensures(part, (i as usize,), (amounts[i], slopes[i])),
        i >= size ==> slopes[i] == Single::zero(),
        amounts.len() == size,
        crate::losses::summed(plus, Double { bits: 0 }, amounts, sum),
        call_ensures(scale, (sum,), penalty),
{
    if i < size {
        assert(l2_part(part, i, amounts[i], slopes[i]));
    }
}

} // verus!
