//! Rounding of the values that a numeric solver returns. The solver works
//! in double precision; here its numbers are read from their 64 bits, with
//! integer arithmetic alone.

use vstd::arithmetic::div_mod::lemma_basic_div;
use vstd::arithmetic::power2::{lemma2_to64, lemma2_to64_rest, lemma_pow2_pos, lemma_pow2_strictly_increases, pow2};
use vstd::bits::{lemma_u64_shl_is_mul, lemma_u64_shr_is_div};
use vstd::prelude::*;

verus! {

/// The exponent field of a double: the 11 bits below the sign.
pub open spec fn exponent_field(bits: u64) -> nat {
    ((bits >> 52) & 0x7FF) as nat
}

/// The fraction field of a double: its low 52 bits.
pub open spec fn fraction_field(bits: u64) -> nat {
    (bits & 0xF_FFFF_FFFF_FFFF) as nat
}

/// The sign bit of a double is set.
pub open spec fn is_negative(bits: u64) -> bool {
    bits >> 63 == 1
}

/// The double is no number: its exponent field is full and its fraction is
/// not zero.
pub open spec fn is_nan(bits: u64) -> bool {
    exponent_field(bits) == 0x7FF && fraction_field(bits) != 0
}

/// The magnitude of a double is `significand * 2^(scale - 1075)`. For a
/// normal number the significand is the fraction with a leading one.
pub open spec fn significand(bits: u64) -> nat {
    if exponent_field(bits) == 0 {
        fraction_field(bits)
    } else {
        fraction_field(bits) + pow2(52)
    }
}

/// The scale of a double: its exponent field, and 1 for a subnormal
/// number. An infinity has the largest scale, and rounds as a very large
/// number does.
pub open spec fn scale(bits: u64) -> nat {
    if exponent_field(bits) == 0 {
        1
    } else {
        exponent_field(bits)
    }
}

/// The integer nearest to the magnitude of a double, halves upward.
pub open spec fn rounded_magnitude(bits: u64) -> nat {
    let m = significand(bits);
    let e = scale(bits);
    if e >= 1075 {
        m * pow2((e - 1075) as nat)
    } else {
        (m + pow2((1074 - e) as nat)) / pow2((1075 - e) as nat)
    }
}

/// `v` brought into the range of `i64`.
pub open spec fn clip_wide(v: int) -> i64 {
    if v < i64::MIN {
        i64::MIN
    } else if v > i64::MAX {
        i64::MAX
    } else {
        v as i64
    }
}

/// The integer nearest to a double, halves away from zero, brought into
/// the range of `i64`; and `i64::MAX` for what is no number.
pub open spec fn spec_round_to_integer(bits: u64) -> i64 {
    if is_nan(bits) {
        i64::MAX
    } else if is_negative(bits) {
        clip_wide(-(rounded_magnitude(bits) as int))
    } else {
        clip_wide(rounded_magnitude(bits) as int)
    }
}

/// The integer nearest to the double precision number of the bits `bits`,
/// halves away from zero. Numbers beyond the range of `i64`, the
/// infinities among them, give the nearest end of that range, and what is
/// no number gives `i64::MAX`: values that no coordinate can have.
pub fn round_to_integer(bits: u64) -> (res: i64)
    ensures
        res == spec_round_to_integer(bits),
{
    let exponent: u64 = (bits >> 52) & 0x7FF;
    let fraction: u64 = bits & 0xF_FFFF_FFFF_FFFF;
    let negative = (bits >> 63) == 1;
    assert(fraction < 0x10_0000_0000_0000) by (bit_vector)
        requires
            fraction == bits & 0xF_FFFF_FFFF_FFFF,
    ;
    assert(exponent <= 0x7FF) by (bit_vector)
        requires
            exponent == (bits >> 52) & 0x7FF,
    ;
    proof {
        lemma2_to64();
        lemma2_to64_rest();
    }
    if exponent == 0x7FF && fraction != 0 {
        return i64::MAX;
    }
    if exponent < 1022 {
        proof {
            // The magnitude is below one half.
            let m = significand(bits);
            let e = scale(bits);
            let s = (1075 - e) as nat;
            assert(s >= 54);
            if s - 1 > 53 {
                lemma_pow2_strictly_increases(53, (s - 1) as nat);
            }
            assert(pow2(s) == 2 * pow2((s - 1) as nat)) by {
                vstd::arithmetic::power2::lemma_pow2_unfold(s);
            }
            lemma_pow2_pos(s);
            lemma_basic_div((m + pow2((s - 1) as nat)) as int, pow2(s) as int);
        }
        return 0;
    }
    let significand: u64 = fraction + 0x10_0000_0000_0000;
    if exponent >= 1086 {
        proof {
            // The magnitude is 2^63 at least.
            let k = (exponent - 1075) as nat;
            if k > 11 {
                lemma_pow2_strictly_increases(11, k);
            }
            assert(significand * pow2(k) >= 0x10_0000_0000_0000 * 0x800) by (nonlinear_arith)
                requires
                    significand >= 0x10_0000_0000_0000,
                    pow2(k) >= 0x800,
            ;
        }
        return if negative {
            i64::MIN
        } else {
            i64::MAX
        };
    }
    let magnitude: u64 = if exponent >= 1075 {
        let k = exponent - 1075;
        proof {
            if k < 10 {
                lemma_pow2_strictly_increases(k as nat, 10);
            }
            assert(significand * pow2(k as nat) <= 0x20_0000_0000_0000 * 0x400) by (nonlinear_arith)
                requires
                    significand < 0x20_0000_0000_0000,
                    pow2(k as nat) <= 0x400,
            ;
            lemma_u64_shl_is_mul(significand, k);
        }
        significand << k
    } else {
        let shift = 1075 - exponent;
        proof {
            if shift - 1 < 52 {
                lemma_pow2_strictly_increases((shift - 1) as nat, 52);
            }
            assert(1 * pow2((shift - 1) as nat) <= 0x10_0000_0000_0000);
            lemma_u64_shl_is_mul(1, (shift - 1) as u64);
        }
        let half: u64 = 1u64 << (shift - 1);
        proof {
            lemma_u64_shr_is_div((significand + half) as u64, shift);
        }
        (significand + half) >> shift
    };
    assert(magnitude == rounded_magnitude(bits));
    if negative {
        if magnitude >= 0x8000_0000_0000_0000 {
            i64::MIN
        } else {
            -(magnitude as i64)
        }
    } else {
        if magnitude > i64::MAX as u64 {
            i64::MAX
        } else {
            magnitude as i64
        }
    }
}

} // verus!
