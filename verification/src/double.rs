//! Binary64 numbers.

use vstd::prelude::*;
use vstd::std_specs::cmp::PartialEqSpecImpl;

verus! {

/// A binary64 number, held as its bit pattern. `==` in code compares numbers: the two zeros
/// are equal, and a pattern that is not a number equals nothing. In contracts it compares
/// patterns, and `same` compares numbers.
#[derive(Clone, Copy, Debug, Default)]
pub struct Double {
    /// The pattern: sign, eleven bits of exponent, 52 bits of fraction.
    pub bits: u64,
}

impl PartialEq for Double {
    fn eq(&self, other: &Double) -> (r: bool) {
        self.eq_number(*other)
    }
}

impl PartialEqSpecImpl for Double {
    open spec fn obeys_eq_spec() -> bool {
        true
    }

    open spec fn eq_spec(&self, other: &Double) -> bool {
        self.same(*other)
    }
}

impl Double {
    /// The exponent and fraction fields.
    pub open spec fn fields(self) -> int {
        self.bits as int % 0x8000_0000_0000_0000
    }

    /// Whether the sign bit is set.
    pub open spec fn negative(self) -> bool {
        self.bits >= 0x8000_0000_0000_0000
    }

    /// Whether the pattern is not a number.
    pub open spec fn nan(self) -> bool {
        self.fields() > 0x7ff0_0000_0000_0000
    }

    /// Whether the pattern is a finite number.
    pub open spec fn finite(self) -> bool {
        self.fields() < 0x7ff0_0000_0000_0000
    }

    /// The number, in units of 2^-1074.
    pub open spec fn value(self) -> int {
        if self.negative() {
            -crate::ieee::magnitude(52, self.fields())
        } else {
            crate::ieee::magnitude(52, self.fields())
        }
    }

    /// Whether both are numbers and the first is smaller.
    pub open spec fn below(self, other: Double) -> bool {
        !self.nan() && !other.nan() && self.value() < other.value()
    }

    /// Whether both are numbers and the first is not larger.
    pub open spec fn at_most(self, other: Double) -> bool {
        !self.nan() && !other.nan() && self.value() <= other.value()
    }

    /// Whether both are numbers and the same one.
    pub open spec fn same(self, other: Double) -> bool {
        !self.nan() && !other.nan() && self.value() == other.value()
    }

    /// The pattern as a signed integer that orders as the numbers do.
    pub open spec fn rank(self) -> int {
        if self.negative() {
            -self.fields()
        } else {
            self.fields()
        }
    }

    /// Ranks order as numbers do.
    pub proof fn lemma_rank(self, other: Double)
        ensures
            self.rank() < other.rank() <==> self.value() < other.value(),
            self.rank() == other.rank() <==> self.value() == other.value(),
    {
        let a = self.fields();
        let b = other.fields();
        crate::ieee::lemma_fields_order(52, a, b);
        crate::ieee::lemma_fields_order(52, b, a);
        crate::ieee::lemma_magnitude_sign(52, a);
        crate::ieee::lemma_magnitude_sign(52, b);
    }

    /// A `Double` from its bit pattern.
    #[verifier::allow_in_spec]
    pub fn from_bits(bits: u64) -> (r: Double)
        returns
            (Double { bits }),
    {
        Double { bits }
    }

    /// The bit pattern.
    pub fn to_bits(self) -> (r: u64)
        ensures
            r == self.bits,
    {
        self.bits
    }

    fn rank_of(self) -> (r: i128)
        ensures
            r == self.rank(),
    {
        if self.bits >= 0x8000_0000_0000_0000 {
            -((self.bits - 0x8000_0000_0000_0000) as i128)
        } else {
            self.bits as i128
        }
    }

    /// Whether the pattern is not a number.
    pub fn is_nan(self) -> (r: bool)
        ensures
            r == self.nan(),
    {
        self.bits % 0x8000_0000_0000_0000 > 0x7ff0_0000_0000_0000
    }

    /// Whether the number is finite.
    pub fn is_finite(self) -> (r: bool)
        ensures
            r == self.finite(),
    {
        self.bits % 0x8000_0000_0000_0000 < 0x7ff0_0000_0000_0000
    }

    /// `self < other` on numbers.
    pub fn lt(self, other: Double) -> (r: bool)
        ensures
            r == self.below(other),
    {
        proof {
            self.lemma_rank(other);
        }
        !self.is_nan() && !other.is_nan() && self.rank_of() < other.rank_of()
    }

    /// `self <= other` on numbers.
    pub fn le(self, other: Double) -> (r: bool)
        ensures
            r == self.at_most(other),
    {
        proof {
            self.lemma_rank(other);
        }
        !self.is_nan() && !other.is_nan() && self.rank_of() <= other.rank_of()
    }

    /// `self == other` on numbers: the two zeros are the same number.
    pub fn eq_number(self, other: Double) -> (r: bool)
        ensures
            r == self.same(other),
    {
        proof {
            self.lemma_rank(other);
        }
        !self.is_nan() && !other.is_nan() && self.rank_of() == other.rank_of()
    }
}

} // verus!
