//! IEEE 754 numbers held as their bit patterns.
//!
//! The library compares, orders, clamps, rounds down and selects numbers, and all of
//! that is decided by their bits. `Single` is a binary32 value and `Double` a binary64
//! value. Sums, products and transcendental functions are left to the caller, who
//! converts with `from_bits` and `to_bits`.
//!
//! The meaning of a pattern is an exact integer, `value`: the number that the pattern
//! stands for, in units of the smallest positive number of its format (2^-149 for a
//! `Single`, 2^-1074 for a `Double`). An infinity is the next step after the largest
//! finite number, so that comparing values compares numbers.

use vstd::arithmetic::power2::*;
use vstd::prelude::*;

verus! {

/// The number that the exponent and fraction fields `m` stand for, in units of the
/// smallest positive number, in a format with `fraction_bits` bits of fraction.
pub open spec fn magnitude(fraction_bits: nat, m: int) -> int {
    let unit = pow2(fraction_bits) as int;
    if m < unit {
        m
    } else {
        (unit + m % unit) * pow2((m / unit - 1) as nat)
    }
}

/// Patterns without sign are ordered as the numbers that they stand for.
pub proof fn lemma_magnitude_increases(fraction_bits: nat, a: int, b: int)
    requires
        0 <= a < b,
    ensures
        magnitude(fraction_bits, a) < magnitude(fraction_bits, b),
{
    let unit = pow2(fraction_bits) as int;
    lemma_pow2_pos(fraction_bits);
    let ea = a / unit;
    let eb = b / unit;
    let fa = a % unit;
    let fb = b % unit;
    vstd::arithmetic::div_mod::lemma_fundamental_div_mod(a, unit);
    vstd::arithmetic::div_mod::lemma_fundamental_div_mod(b, unit);
    vstd::arithmetic::div_mod::lemma_div_is_ordered(a, b, unit);
    assert(ea <= eb);
    if b < unit {
    } else {
        assert(eb >= 1) by (nonlinear_arith)
            requires
                b >= unit,
                unit > 0,
                b == unit * eb + fb,
                0 <= fb < unit,
        ;
        let pb = pow2((eb - 1) as nat) as int;
        lemma_pow2_pos((eb - 1) as nat);
        assert(magnitude(fraction_bits, b) >= unit * pb) by (nonlinear_arith)
            requires
                magnitude(fraction_bits, b) == (unit + fb) * pb,
                fb >= 0,
                pb > 0,
        ;
        if a < unit {
            assert(unit * pb >= unit) by (nonlinear_arith)
                requires
                    pb >= 1,
                    unit > 0,
            ;
        } else {
            assert(ea >= 1) by (nonlinear_arith)
                requires
                    a >= unit,
                    unit > 0,
                    a == unit * ea + fa,
                    0 <= fa < unit,
            ;
            let pa = pow2((ea - 1) as nat) as int;
            lemma_pow2_pos((ea - 1) as nat);
            if ea == eb {
                assert(fa < fb);
                assert((unit + fa) * pa < (unit + fb) * pa) by (nonlinear_arith)
                    requires
                        fa < fb,
                        pa > 0,
                ;
            } else {
                lemma_pow2_unfold(ea as nat);
                assert((unit + fa) * pa < unit * (2 * pa)) by (nonlinear_arith)
                    requires
                        fa < unit,
                        pa > 0,
                ;
                if ea < eb - 1 {
                    lemma_pow2_strictly_increases(ea as nat, (eb - 1) as nat);
                }
                assert(unit * (2 * pa) <= unit * pb) by (nonlinear_arith)
                    requires
                        2 * pa <= pb,
                        unit > 0,
                ;
            }
        }
    }
}

/// Patterns without sign order as their numbers, both ways.
pub proof fn lemma_fields_order(fraction_bits: nat, a: int, b: int)
    requires
        0 <= a,
        0 <= b,
    ensures
        a < b <==> magnitude(fraction_bits, a) < magnitude(fraction_bits, b),
{
    if a < b {
        lemma_magnitude_increases(fraction_bits, a, b);
    } else if b < a {
        lemma_magnitude_increases(fraction_bits, b, a);
    }
}

/// Only the zero pattern stands for zero.
pub proof fn lemma_magnitude_sign(fraction_bits: nat, a: int)
    requires
        0 <= a,
    ensures
        magnitude(fraction_bits, a) >= 0,
        magnitude(fraction_bits, a) == 0 <==> a == 0,
{
    lemma_pow2_pos(fraction_bits);
    assert(magnitude(fraction_bits, 0) == 0);
    if a > 0 {
        lemma_magnitude_increases(fraction_bits, 0, a);
    }
}

} // verus!
