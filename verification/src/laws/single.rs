//! What single-precision numbers are rounded to.
use vstd::prelude::*;
use vstd::arithmetic::power2::pow2;
use crate::single::{below_zero, finite, rounded, sign, significand, to_u16, truncated, unit};

verus! {

/// The parts of the bits of a number: the sign in the highest bit, eight bits of exponent, and 23 of
/// fraction. The magnitude is a significand times a power of two: the significand has a leading one
/// in front of the fraction, but where the exponent is 0.
pub open spec fn has_parts(bits: u32, negative: bool, exponent: int, fraction: int) -> bool {
    &&& 0 <= exponent < 256
    &&& 0 <= fraction < 0x80_0000
    &&& bits == (if negative {
        0x8000_0000
    } else {
        0int
    }) + exponent * 0x80_0000 + fraction
}

/// Numbers are known by their parts: the exponent 255 has no number, and the number is its sign, its
/// significand, and the exponent of the significand's unit, 150 for ones.
pub proof fn numbers_have_parts(bits: u32, negative: bool, exponent: int, fraction: int)
    requires
        has_parts(bits, negative, exponent, fraction),
    ensures
        finite(bits) <==> exponent < 255,
        sign(bits) == negative,
        exponent == 0 ==> significand(bits) == fraction && unit(bits) == 1,
        exponent > 0 ==> significand(bits) == 0x80_0000 + fraction && unit(bits) == exponent,
        below_zero(bits) <==> negative && !(exponent == 0 && fraction == 0),
{
    let rest = exponent * 0x80_0000 + fraction;
    assert(0 <= rest < 0x8000_0000);
    assert(bits as int / 0x80_0000 == (if negative {
        256int
    } else {
        0
    }) + exponent);
    assert(bits as int % 0x80_0000 == fraction);
}

/// The magnitude of a number is rounded to the nearest integer, halves up.
pub proof fn magnitudes_are_rounded_to_nearest(bits: u32)
    ensures
        unit(bits) >= 150 ==> rounded(bits) == significand(bits) * pow2((unit(bits) - 150) as nat),
        unit(bits) < 150 ==> {
            let ones = pow2((150 - unit(bits)) as nat);
            (2 * rounded(bits) - 1) * ones <= 2 * significand(bits) < (2 * rounded(bits) + 1) * ones
        },
{
    if unit(bits) < 150 {
        let half = pow2((149 - unit(bits)) as nat) as int;
        let ones = pow2((150 - unit(bits)) as nat) as int;
        vstd::arithmetic::power2::lemma_pow2_unfold((150 - unit(bits)) as nat);
        vstd::arithmetic::power2::lemma_pow2_pos((149 - unit(bits)) as nat);
        let n = significand(bits) + half;
        vstd::arithmetic::div_mod::lemma_fundamental_div_mod(n, ones);
        let q = n / ones;
        assert(q == rounded(bits));
        assert((2 * q - 1) * ones == 2 * (ones * q) - ones && (2 * q + 1) * ones == 2 * (ones * q)
            + ones) by (nonlinear_arith);
    }
}

/// A number is cut off at the point, and to the range of 16 bits.
pub proof fn numbers_are_cut_off(bits: u32)
    requires
        finite(bits),
    ensures
        sign(bits) ==> to_u16(bits) == 0,
        !sign(bits) && unit(bits) < 150 ==> {
            let ones = pow2((150 - unit(bits)) as nat);
            &&& significand(bits) < 65536 * ones ==> to_u16(bits) * ones <= significand(bits) < (to_u16(
                bits,
            ) + 1) * ones
            &&& significand(bits) >= 65535 * ones ==> to_u16(bits) == 65535
        },
        !sign(bits) && unit(bits) >= 150 ==> to_u16(bits) == (if significand(bits) * pow2(
            (unit(bits) - 150) as nat,
        ) > 65535 {
            65535
        } else {
            significand(bits) * pow2((unit(bits) - 150) as nat)
        }),
{
    assert(significand(bits) >= 0);
    if unit(bits) < 150 {
        let ones = pow2((150 - unit(bits)) as nat) as int;
        vstd::arithmetic::power2::lemma_pow2_pos((150 - unit(bits)) as nat);
        let n = significand(bits);
        vstd::arithmetic::div_mod::lemma_fundamental_div_mod(n, ones);
        vstd::arithmetic::div_mod::lemma_div_pos_is_pos(n, ones);
        let q = n / ones;
        assert(q * ones == ones * q && (q + 1) * ones == ones * q + ones) by (nonlinear_arith);
        assert(n < 65536 * ones ==> q <= 65535) by (nonlinear_arith)
            requires
                ones * q <= n,
                ones > 0,
        ;
        assert(n >= 65535 * ones ==> q >= 65535) by (nonlinear_arith)
            requires
                n < ones * q + ones,
                ones > 0,
        ;
    } else {
        assert(0 <= significand(bits) * pow2((unit(bits) - 150) as nat)) by (nonlinear_arith)
            requires
                significand(bits) >= 0,
        ;
    }
}

} // verus!
