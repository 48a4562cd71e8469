//! Binary32 numbers.

use vstd::arithmetic::power2::*;
use vstd::prelude::*;
use vstd::std_specs::cmp::PartialEqSpecImpl;

verus! {

/// A binary32 number, held as its bit pattern. `==` in code compares numbers: the two zeros
/// are equal, and a pattern that is not a number equals nothing. In contracts it compares
/// patterns, and `same` compares numbers.
#[derive(Clone, Copy, Debug, Default)]
pub struct Single {
    /// The pattern: sign, eight bits of exponent, 23 bits of fraction.
    pub bits: u32,
}

impl PartialEq for Single {
    fn eq(&self, other: &Single) -> (r: bool) {
        self.eq_number(*other)
    }
}

impl PartialEqSpecImpl for Single {
    open spec fn obeys_eq_spec() -> bool {
        true
    }

    open spec fn eq_spec(&self, other: &Single) -> bool {
        self.same(*other)
    }
}

impl Single {
    /// The exponent and fraction fields.
    pub open spec fn fields(self) -> int {
        self.bits as int % 0x8000_0000
    }

    /// Whether the sign bit is set.
    pub open spec fn negative(self) -> bool {
        self.bits >= 0x8000_0000
    }

    /// Whether the pattern is not a number.
    pub open spec fn nan(self) -> bool {
        self.fields() > 0x7f80_0000
    }

    /// Whether the pattern is a finite number.
    pub open spec fn finite(self) -> bool {
        self.fields() < 0x7f80_0000
    }

    /// The number, in units of 2^-149.
    pub open spec fn value(self) -> int {
        if self.negative() {
            -crate::ieee::magnitude(23, self.fields())
        } else {
            crate::ieee::magnitude(23, self.fields())
        }
    }

    /// Whether both are numbers and the first is smaller.
    pub open spec fn below(self, other: Single) -> bool {
        !self.nan() && !other.nan() && self.value() < other.value()
    }

    /// Whether both are numbers and the first is not larger.
    pub open spec fn at_most(self, other: Single) -> bool {
        !self.nan() && !other.nan() && self.value() <= other.value()
    }

    /// Whether both are numbers and the same one.
    pub open spec fn same(self, other: Single) -> bool {
        !self.nan() && !other.nan() && self.value() == other.value()
    }

    /// The pattern as a signed integer that orders as the numbers do.
    pub open spec fn rank(self) -> int {
        if self.negative() {
            -self.fields()
        } else {
            self.fields()
        }
    }

    /// The larger number; a pattern that is not a number gives way to the other one.
    pub open spec fn larger(self, other: Single) -> Single {
        if self.nan() || self.below(other) {
            other
        } else {
            self
        }
    }

    /// The smaller number; a pattern that is not a number gives way to the other one.
    pub open spec fn smaller(self, other: Single) -> Single {
        if self.nan() || other.below(self) {
            other
        } else {
            self
        }
    }

    /// The number nearest to this one between the two ends; the lower end for a
    /// pattern that is not a number.
    pub open spec fn held(self, low: Single, high: Single) -> Single {
        self.larger(low).smaller(high)
    }

    /// Ranks order as numbers do.
    pub proof fn lemma_rank(self, other: Single)
        ensures
            self.rank() < other.rank() <==> self.value() < other.value(),
            self.rank() == other.rank() <==> self.value() == other.value(),
    {
        let a = self.fields();
        let b = other.fields();
        crate::ieee::lemma_fields_order(23, a, b);
        crate::ieee::lemma_fields_order(23, b, a);
        crate::ieee::lemma_magnitude_sign(23, a);
        crate::ieee::lemma_magnitude_sign(23, b);
    }

    /// Holding a number between two numbers that are in order lands between them, and
    /// leaves a number that is there already.
    pub proof fn lemma_held(self, low: Single, high: Single)
        requires
            low.at_most(high),
        ensures
            low.at_most(self.held(low, high)),
            self.held(low, high).at_most(high),
            low.at_most(self) && self.at_most(high) ==> self.held(low, high) == self,
            low.finite() && high.finite() ==> self.held(low, high).finite(),
    {
        self.lemma_rank(low);
        self.lemma_rank(high);
        low.lemma_rank(high);
    }

    /// A `Single` from its bit pattern.
    #[verifier::allow_in_spec]
    pub fn from_bits(bits: u32) -> (r: Single)
        returns
            (Single { bits }),
    {
        Single { bits }
    }

    /// The number 0.
    #[verifier::allow_in_spec]
    pub fn zero() -> (r: Single)
        returns
            (Single { bits: 0 }),
    {
        Single { bits: 0 }
    }

    /// The number 1.
    #[verifier::allow_in_spec]
    pub fn one() -> (r: Single)
        returns
            (Single { bits: 0x3f80_0000 }),
    {
        Single { bits: 0x3f80_0000 }
    }

    /// The bit pattern.
    pub fn to_bits(self) -> (r: u32)
        ensures
            r == self.bits,
    {
        self.bits
    }

    fn rank_of(self) -> (r: i64)
        ensures
            r == self.rank(),
    {
        if self.bits >= 0x8000_0000 {
            -((self.bits - 0x8000_0000) as i64)
        } else {
            self.bits as i64
        }
    }

    /// Whether the pattern is not a number.
    pub fn is_nan(self) -> (r: bool)
        ensures
            r == self.nan(),
    {
        self.bits % 0x8000_0000 > 0x7f80_0000
    }

    /// Whether the number is finite.
    pub fn is_finite(self) -> (r: bool)
        ensures
            r == self.finite(),
    {
        self.bits % 0x8000_0000 < 0x7f80_0000
    }

    /// Whether the number is an infinity.
    pub fn is_infinite(self) -> (r: bool)
        ensures
            r == (!self.nan() && !self.finite()),
    {
        self.bits % 0x8000_0000 == 0x7f80_0000
    }

    /// `self < other` on numbers.
    pub fn lt(self, other: Single) -> (r: bool)
        ensures
            r == self.below(other),
    {
        proof {
            self.lemma_rank(other);
        }
        !self.is_nan() && !other.is_nan() && self.rank_of() < other.rank_of()
    }

    /// `self <= other` on numbers.
    pub fn le(self, other: Single) -> (r: bool)
        ensures
            r == self.at_most(other),
    {
        proof {
            self.lemma_rank(other);
        }
        !self.is_nan() && !other.is_nan() && self.rank_of() <= other.rank_of()
    }

    /// `self == other` on numbers: the two zeros are the same number.
    pub fn eq_number(self, other: Single) -> (r: bool)
        ensures
            r == self.same(other),
    {
        proof {
            self.lemma_rank(other);
        }
        !self.is_nan() && !other.is_nan() && self.rank_of() == other.rank_of()
    }

    /// The larger of two numbers.
    pub fn max(self, other: Single) -> (r: Single)
        ensures
            r == self.larger(other),
    {
        if self.is_nan() || self.lt(other) {
            other
        } else {
            self
        }
    }

    /// The smaller of two numbers.
    pub fn min(self, other: Single) -> (r: Single)
        ensures
            r == self.smaller(other),
    {
        if self.is_nan() || other.lt(self) {
            other
        } else {
            self
        }
    }

    /// Holds a number between two ends.
    pub fn clamp(self, low: Single, high: Single) -> (r: Single)
        ensures
            r == self.held(low, high),
    {
        self.max(low).min(high)
    }
}

impl Single {
    /// The largest whole number that is not larger than this one.
    pub fn floor(self) -> (r: Single)
        requires
            self.finite(),
            !self.negative(),
        ensures
            r.finite(),
            !r.negative(),
            r.value() == (self.value() / pow2(149) as int) * pow2(149),
    {
        let exponent: u32 = self.bits / 0x80_0000;
        proof {
            lemma2_to64();
            lemma_pow2_pos(149);
        }
        if exponent < 127 {
            proof {
                Single::one().lemma_rank(self);
                lemma_one();
                crate::ieee::lemma_magnitude_sign(23, self.fields());
                vstd::arithmetic::div_mod::lemma_basic_div(self.value(), pow2(149) as int);
                lemma_zero();
            }
            Single::zero()
        } else if exponent >= 150 {
            proof {
                self.lemma_whole();
            }
            self
        } else {
            let k: u32 = 150 - exponent;
            let step: u32 = 1u32 << k;
            proof {
                vstd::bits::lemma_u32_pow2_no_overflow(k as nat);
                vstd::bits::lemma_u32_shl_is_mul(1, k);
                assert(step == pow2(k as nat));
                lemma_pow2_pos(k as nat);
                vstd::arithmetic::div_mod::lemma_mod_decreases(self.bits as nat, step as nat);
            }
            let r: u32 = self.bits - self.bits % step;
            proof {
                self.lemma_truncated(Single { bits: r }, k as nat);
            }
            Single { bits: r }
        }
    }

    /// A number of 2^23 or more is whole.
    proof fn lemma_whole(self)
        requires
            self.finite(),
            !self.negative(),
            self.bits as int / 0x80_0000 >= 150,
        ensures
            self.value() == (self.value() / pow2(149) as int) * pow2(149),
    {
        lemma2_to64();
        let unit = 0x80_0000int;
        let e = self.bits as int / unit;
        let f = self.bits as int % unit;
        let p = pow2((e - 1) as nat) as int;
        let q = pow2((e - 150) as nat) as int;
        let w = pow2(149) as int;
        lemma_pow2_pos(149);
        assert(p == q * w) by {
            lemma_pow2_adds((e - 150) as nat, 149);
        }
        let m = unit + f;
        assert(self.value() == m * p);
        assert(m * p == (m * q) * w) by (nonlinear_arith)
            requires
                p == q * w,
        ;
        vstd::arithmetic::div_mod::lemma_div_by_multiple(m * q, w);
    }

    /// Clearing the bits of fraction that stand below 1 rounds down.
    proof fn lemma_truncated(self, r: Single, k: nat)
        requires
            self.finite(),
            !self.negative(),
            1 <= k <= 23,
            self.bits as int / 0x80_0000 == 150 - k,
            r.bits == self.bits - self.bits as int % pow2(k) as int,
        ensures
            r.finite(),
            !r.negative(),
            r.value() == (self.value() / pow2(149) as int) * pow2(149),
    {
        lemma2_to64();
        let unit = 0x80_0000int;
        let b = self.bits as int;
        let e = b / unit;
        let f = b % unit;
        let kk = pow2(k) as int;
        let p = pow2((e - 1) as nat) as int;
        let w = pow2(149) as int;
        let rest = pow2((23 - k) as nat) as int;
        lemma_pow2_pos(k);
        lemma_pow2_pos((e - 1) as nat);
        lemma_pow2_pos((23 - k) as nat);
        lemma_pow2_pos(149);
        assert(unit == rest * kk) by {
            lemma_pow2_adds((23 - k) as nat, k);
        }
        assert(w == kk * p) by {
            lemma_pow2_adds(k, (e - 1) as nat);
        }
        let g = f % kk;
        let m = unit + f;
        assert(b == unit * e + f);
        assert(b == (rest * e) * kk + f) by (nonlinear_arith)
            requires
                b == unit * e + f,
                unit == rest * kk,
        ;
        vstd::arithmetic::div_mod::lemma_mod_multiples_vanish(rest * e, f, kk);
        vstd::arithmetic::mul::lemma_mul_is_commutative(rest * e, kk);
        assert(b % kk == g);
        vstd::arithmetic::div_mod::lemma_mod_multiples_vanish(rest, f, kk);
        vstd::arithmetic::mul::lemma_mul_is_commutative(rest, kk);
        assert(m % kk == g);
        vstd::arithmetic::div_mod::lemma_fundamental_div_mod(f, kk);
        vstd::arithmetic::div_mod::lemma_mod_decreases(f as nat, kk as nat);
        assert(0 <= g <= f);
        let rb = r.bits as int;
        assert(rb == unit * e + (f - g));
        vstd::arithmetic::div_mod::lemma_fundamental_div_mod_converse(rb, unit, e, f - g);
        assert(r.value() == (unit + (f - g)) * p);
        assert(self.value() == m * p);
        vstd::arithmetic::div_mod::lemma_fundamental_div_mod(m, kk);
        let n = m / kk;
        assert(m == kk * n + g);
        assert(m * p == n * w + g * p) by (nonlinear_arith)
            requires
                m == kk * n + g,
                w == kk * p,
        ;
        assert(0 <= g * p < w) by (nonlinear_arith)
            requires
                0 <= g < kk,
                p > 0,
                w == kk * p,
        ;
        vstd::arithmetic::mul::lemma_mul_is_commutative(n, w);
        vstd::arithmetic::div_mod::lemma_fundamental_div_mod_converse(m * p, w, n, g * p);
        assert((unit + (f - g)) * p == n * w) by (nonlinear_arith)
            requires
                unit + (f - g) == kk * n,
                w == kk * p,
        ;
    }
}

/// The pattern of 1 stands for 1.
pub proof fn lemma_one()
    ensures
        Single::one().value() == pow2(149),
        Single::one().finite(),
{
    lemma2_to64();
    lemma_pow2_adds(23, 126);
    assert(Single::one().fields() == 127 * 0x80_0000);
}

/// The zero pattern stands for 0.
pub proof fn lemma_zero()
    ensures
        Single::zero().value() == 0,
        Single::zero().finite(),
{
    lemma_pow2_pos(23);
}

/// The larger of two numbers is one of them, and neither is above it; a pattern that is not a
/// number gives way.
pub proof fn law_larger_is_the_larger(x: Single, y: Single)
    ensures
        x.larger(y) == x || x.larger(y) == y,
        !x.nan() && !y.nan() ==> x.at_most(x.larger(y)) && y.at_most(x.larger(y)),
        x.nan() ==> x.larger(y) == y,
        !x.nan() && y.nan() ==> x.larger(y) == x,
{
}

/// The smaller of two numbers is one of them, and neither is below it; a pattern that is not a
/// number gives way.
pub proof fn law_smaller_is_the_smaller(x: Single, y: Single)
    ensures
        x.smaller(y) == x || x.smaller(y) == y,
        !x.nan() && !y.nan() ==> x.smaller(y).at_most(x) && x.smaller(y).at_most(y),
        x.nan() ==> x.smaller(y) == y,
        !x.nan() && y.nan() ==> x.smaller(y) == x,
{
}

/// A number that is held between two others is the nearest one between them: itself where it
/// lies there, the lower end where it is below it, and the upper end where it is above.
pub proof fn law_held_is_the_nearest(x: Single, low: Single, high: Single)
    requires
        low.at_most(high),
    ensures
        low.at_most(x) && x.at_most(high) ==> x.held(low, high) == x,
        x.below(low) ==> x.held(low, high) == low,
        high.below(x) ==> x.held(low, high) == high,
        x.nan() ==> x.held(low, high) == low,
{
}

} // verus!
