//! Numbers that carry their gradient along.
//!
//! A dual number is a value with its gradient by each parameter. Where an operation chooses
//! one of two numbers, the one that is chosen decides which gradient is carried on; where it
//! computes, the slopes of its result are computed parameter by parameter.

use crate::double::Double;
use vstd::prelude::*;

verus! {

/// The number of parameters that a gradient is taken by.
pub const GRAD_LEN: usize = 36;

/// A value and its gradient.
#[derive(Clone, Copy, Debug)]
pub struct Dual35 {
    /// The value.
    pub value: Double,
    /// Its gradient.
    pub grad: [Double; 36],
}

impl Dual35 {
    /// Whether nothing that a gradient is taken by changes the value.
    pub open spec fn is_constant(self, value: Double) -> bool {
        &&& self.value == value
        &&& forall|i: int| 0 <= i < 36 ==> #[trigger] self.grad[i] == Double { bits: 0 }
    }

    /// Whether this is parameter `idx`: its gradient is 1 by itself and 0 by every other
    /// parameter. Where there is no such parameter, it is a constant.
    pub open spec fn is_variable(self, value: Double, idx: int) -> bool {
        &&& self.value == value
        &&& forall|i: int|
            0 <= i < 36 ==> #[trigger] self.grad[i] == if i == idx {
                Double { bits: 0x3ff0_0000_0000_0000 }
            } else {
                Double { bits: 0 }
            }
    }

    /// A constant.
    pub fn constant(value: Double) -> (r: Dual35)
        ensures
            r.is_constant(value),
    {
        Dual35 { value, grad: [Double::from_bits(0);36] }
    }

    /// Parameter `idx`.
    pub fn variable(value: Double, idx: usize) -> (r: Dual35)
        ensures
            r.is_variable(value, idx as int),
    {
        let mut grad = [Double::from_bits(0);36];
        if idx < GRAD_LEN {
            grad[idx] = Double::from_bits(0x3ff0_0000_0000_0000);
        }
        Dual35 { value, grad }
    }

    /// The result of an operation on two numbers, which has value `value`: its slope by each
    /// parameter comes from their slopes.
    pub fn combine<F: Fn(Double, Double) -> Double>(
        self,
        rhs: Dual35,
        value: Double,
        slope: &F,
    ) -> (r: Dual35)
        requires
            forall|a: Double, b: Double| #[trigger] call_requires(*slope, (a, b)),
        ensures
            r.value == value,
            forall|i: int|
                0 <= i < 36 ==> call_ensures(
                    *slope,
                    (self.grad[i], rhs.grad[i]),
                    #[trigger] r.grad[i],
                ),
    {
        let mut grad = [Double::from_bits(0);36];
        let mut i: usize = 0;
        while i < GRAD_LEN
            invariant
                i <= 36,
                forall|a: Double, b: Double| #[trigger] call_requires(*slope, (a, b)),
                forall|j: int|
                    0 <= j < i ==> call_ensures(
                        *slope,
                        (self.grad[j], rhs.grad[j]),
                        #[trigger] grad[j],
                    ),
            decreases 36 - i,
        {
            grad[i] = slope(self.grad[i], rhs.grad[i]);
            i += 1;
        }
        Dual35 { value, grad }
    }

    /// The result of an operation on this number, which has value `value`: its slope by each
    /// parameter comes from the slope of this one.
    pub fn apply<F: Fn(Double) -> Double>(self, value: Double, slope: &F) -> (r: Dual35)
        requires
            forall|a: Double| #[trigger] call_requires(*slope, (a,)),
        ensures
            r.value == value,
            forall|i: int|
                0 <= i < 36 ==> call_ensures(*slope, (self.grad[i],), #[trigger] r.grad[i]),
    {
        let mut grad = [Double::from_bits(0);36];
        let mut i: usize = 0;
        while i < GRAD_LEN
            invariant
                i <= 36,
                forall|a: Double| #[trigger] call_requires(*slope, (a,)),
                forall|j: int|
                    0 <= j < i ==> call_ensures(*slope, (self.grad[j],), #[trigger] grad[j]),
            decreases 36 - i,
        {
            grad[i] = slope(self.grad[i]);
            i += 1;
        }
        Dual35 { value, grad }
    }

    /// This number, or the constant `min` where it is smaller.
    pub fn clamp_min(self, min: Double) -> (r: Dual35)
        ensures
            self.value.below(min) ==> r.is_constant(min),
            !self.value.below(min) ==> r == self,
    {
        if self.value.lt(min) {
            Dual35::constant(min)
        } else {
            self
        }
    }

    /// This number, or the constant `max` where it is larger.
    pub fn clamp_max(self, max: Double) -> (r: Dual35)
        ensures
            max.below(self.value) ==> r.is_constant(max),
            !max.below(self.value) ==> r == self,
    {
        if max.lt(self.value) {
            Dual35::constant(max)
        } else {
            self
        }
    }

    /// This number held between two constants; where it is smaller than the first or
    /// larger than the second, that constant.
    pub fn clamp(self, min: Double, max: Double) -> (r: Dual35)
        ensures
            self.value.below(min) && !max.below(min) ==> r.is_constant(min),
            self.value.below(min) && max.below(min) ==> r.is_constant(max),
            !self.value.below(min) && max.below(self.value) ==> r.is_constant(max),
            !self.value.below(min) && !max.below(self.value) ==> r == self,
    {
        self.clamp_min(min).clamp_max(max)
    }

    /// The smaller of two numbers: this one, unless the other is smaller or one of them is
    /// not a number.
    pub fn min(self, rhs: Dual35) -> (r: Dual35)
        ensures
            r == if self.value.at_most(rhs.value) {
                self
            } else {
                rhs
            },
    {
        if self.value.le(rhs.value) {
            self
        } else {
            rhs
        }
    }

    /// The larger of two numbers: this one, unless the other is larger or one of them is
    /// not a number.
    pub fn max(self, rhs: Dual35) -> (r: Dual35)
        ensures
            r == if rhs.value.at_most(self.value) {
                self
            } else {
                rhs
            },
    {
        if rhs.value.le(self.value) {
            self
        } else {
            rhs
        }
    }
}

/// The parameters as numbers that carry their gradient along.
pub fn dual_weights(w: &Vec<Double>) -> (r: Vec<Dual35>)
    requires
        w@.len() >= 36,
    ensures
        r@.len() == 36,
        forall|i: int| 0 <= i < 36 ==> (#[trigger] r@[i]).is_variable(w@[i], i),
{
    let mut r: Vec<Dual35> = Vec::with_capacity(GRAD_LEN);
    let mut i: usize = 0;
    while i < GRAD_LEN
        invariant
            i <= 36,
            w@.len() >= 36,
            r@.len() == i,
            forall|j: int| 0 <= j < i ==> (#[trigger] r@[j]).is_variable(w@[j], j),
        decreases GRAD_LEN - i,
    {
        r.push(Dual35::variable(w[i], i));
        i += 1;
    }
    r
}

/// A constant changes with no parameter, and a parameter changes with itself alone, one for
/// one.
pub proof fn law_slopes_of_constants_and_parameters(dual: Dual35, value: Double, idx: int, i: int)
    requires
        0 <= i < 36,
    ensures
        dual.is_constant(value) ==> dual.value == value && dual.grad[i].bits == 0,
        dual.is_variable(value, idx) ==> dual.value == value,
        dual.is_variable(value, idx) && i == idx ==> dual.grad[i].bits == 0x3ff0_0000_0000_0000,
        dual.is_variable(value, idx) && i != idx ==> dual.grad[i].bits == 0,
{
}

} // verus!
