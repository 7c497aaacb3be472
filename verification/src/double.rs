//! Doubles read by their bits: which of them are whole numbers, and the
//! 64-bit integer that stands for each of those.
//!
//! A double is given as the 64 bits of its IEEE 754 binary64 form: one sign
//! bit, eleven bits of exponent, fifty-two bits of fraction. Nothing here
//! computes with floating point.

use vstd::arithmetic::power2::{lemma2_to64, lemma2_to64_rest, lemma_pow2_strictly_increases, pow2};
use vstd::prelude::*;

verus! {

/// Two to the power fifty-two: the weight of the bit that a normal double's
/// significand has in front of its fraction.
pub const HIDDEN_BIT: u64 = 0x10_0000_0000_0000;

/// The exponent field of the doubles that are no numbers: infinities and NaN.
pub const NOT_FINITE: u64 = 0x7ff;

/// The exponent field of the doubles whose significand counts units.
pub const UNIT_EXPONENT: u64 = 1075;

/// The sign bit is set.
pub open spec fn is_negative(bits: u64) -> bool {
    bits >= 0x8000_0000_0000_0000
}

/// The eleven bits of the exponent field.
pub open spec fn exponent_field(bits: u64) -> int {
    (bits as int / 0x10_0000_0000_0000) % 0x800
}

/// The fifty-two bits of the fraction field.
pub open spec fn fraction_field(bits: u64) -> int {
    bits as int % 0x10_0000_0000_0000
}

/// The double is a number: neither an infinity nor NaN.
pub open spec fn is_finite(bits: u64) -> bool {
    exponent_field(bits) != 0x7ff
}

/// The significand of a finite double: its magnitude is
/// `significand * 2^scale`.
pub open spec fn significand(bits: u64) -> int {
    if exponent_field(bits) == 0 {
        fraction_field(bits)
    } else {
        0x10_0000_0000_0000 + fraction_field(bits)
    }
}

/// The power of two that a finite double's significand is multiplied by.
pub open spec fn scale(bits: u64) -> int {
    if exponent_field(bits) == 0 {
        -1074
    } else {
        exponent_field(bits) - 1075
    }
}

/// The double is a whole number: finite, with nothing behind the point.
pub open spec fn is_whole(bits: u64) -> bool {
    is_finite(bits) && (scale(bits) >= 0 || significand(bits) % (pow2((-scale(bits)) as nat) as int)
        == 0)
}

/// The magnitude of a whole double.
pub open spec fn magnitude(bits: u64) -> int {
    if scale(bits) >= 0 {
        significand(bits) * pow2(scale(bits) as nat)
    } else {
        significand(bits) / (pow2((-scale(bits)) as nat) as int)
    }
}

/// The value of a whole double.
pub open spec fn whole_value(bits: u64) -> int {
    if is_negative(bits) {
        -magnitude(bits)
    } else {
        magnitude(bits)
    }
}

/// The 64-bit integer nearest to `value`.
pub open spec fn clamped(value: int) -> i64 {
    if value < i64::MIN {
        i64::MIN
    } else if value > i64::MAX {
        i64::MAX
    } else {
        value as i64
    }
}

/// The integer that stands for a double: its value where it is whole, taken
/// to the nearest end of the 64-bit range where it lies outside, and nothing
/// where the double is not a whole number.
pub open spec fn whole_of_double(bits: u64) -> Option<i64> {
    if is_whole(bits) {
        Some(clamped(whole_value(bits)))
    } else {
        None
    }
}

/// Two to the power `shift`.
fn power_of_two(shift: u64) -> (unit: u64)
    requires
        shift < 64,
    ensures
        unit == pow2(shift as nat),
        unit > 0,
{
    proof {
        vstd::bits::lemma_u64_pow2_no_overflow(shift as nat);
        vstd::bits::lemma_u64_shl_is_mul(1, shift);
    }
    1u64 << shift
}

/// The magnitude `magnitude` with the sign given.
fn signed(negative: bool, magnitude: u64) -> (value: i64)
    requires
        magnitude <= i64::MAX,
    ensures
        value == if negative {
            -(magnitude as int)
        } else {
            magnitude as int
        },
{
    if negative {
        -(magnitude as i64)
    } else {
        magnitude as i64
    }
}

/// Reads a double by its bits as a 64-bit integer. A double that is not a
/// whole number gives `None`; a whole one beyond the 64-bit range gives the
/// nearest end of the range.
pub fn whole_double(bits: u64) -> (whole: Option<i64>)
    ensures
        whole == whole_of_double(bits),
{
    let negative = bits >> 63 == 1;
    let exponent = (bits >> 52) & 0x7ff;
    let fraction = bits & 0x000f_ffff_ffff_ffff;
    proof {
        assert((bits >> 63 == 1) == (bits >= 0x8000_0000_0000_0000)) by (bit_vector);
        assert((bits >> 52) & 0x7ff == (bits / 0x10_0000_0000_0000) % 0x800) by (bit_vector);
        assert(bits & 0x000f_ffff_ffff_ffff == bits % 0x10_0000_0000_0000) by (bit_vector);
        assert(exponent == exponent_field(bits));
        assert(fraction == fraction_field(bits));
        lemma2_to64();
        lemma2_to64_rest();
    }
    if exponent == NOT_FINITE {
        return None;
    }
    if exponent == 0 {
        // Zero, or too small to be whole.
        proof {
            lemma_pow2_strictly_increases(52, 1074);
            vstd::arithmetic::div_mod::lemma_small_mod(fraction as nat, pow2(1074));
            vstd::arithmetic::div_mod::lemma_basic_div(fraction as int, pow2(1074) as int);
        }
        return if fraction == 0 {
            Some(0)
        } else {
            None
        };
    }
    let significand = fraction + HIDDEN_BIT;
    if exponent >= UNIT_EXPONENT {
        let shift = exponent - UNIT_EXPONENT;
        if shift >= 11 {
            // At least two to the power sixty-three.
            proof {
                if shift > 11 {
                    lemma_pow2_strictly_increases(11, shift as nat);
                }
                assert(significand * pow2(shift as nat) >= 0x8000_0000_0000_0000) by (nonlinear_arith)
                    requires
                        significand >= 0x10_0000_0000_0000,
                        pow2(shift as nat) >= 0x800,
                ;
            }
            return Some(
                if negative {
                    i64::MIN
                } else {
                    i64::MAX
                },
            );
        }
        let unit = power_of_two(shift);
        proof {
            if shift < 10 {
                lemma_pow2_strictly_increases(shift as nat, 10);
            }
            assert(significand * unit < 0x8000_0000_0000_0000) by (nonlinear_arith)
                requires
                    significand < 0x20_0000_0000_0000,
                    unit <= 0x400,
            ;
        }
        Some(signed(negative, significand * unit))
    } else {
        let shift = UNIT_EXPONENT - exponent;
        if shift >= 53 {
            // Below one, and not zero.
            proof {
                if shift > 53 {
                    lemma_pow2_strictly_increases(53, shift as nat);
                }
                vstd::arithmetic::div_mod::lemma_small_mod(significand as nat, pow2(shift as nat));
            }
            return None;
        }
        let unit = power_of_two(shift);
        if significand % unit != 0 {
            return None;
        }
        Some(signed(negative, significand / unit))
    }
}

} // verus!
