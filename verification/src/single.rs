//! Single-precision numbers as the bits that represent them.
use vstd::prelude::*;
use vstd::arithmetic::power2::pow2;

verus! {

/// A number that a file holds: its IEEE 754 single-precision bits, and how it reads in messages.
#[derive(Debug)]
pub struct Single {
    pub bits: u32,
    pub text: String,
}

impl Clone for Single {
    fn clone(&self) -> (copy: Self)
        ensures
            copy == *self,
    {
        Single { bits: self.bits, text: self.text.clone() }
    }
}

/// The sign bit is set.
pub open spec fn sign(bits: u32) -> bool {
    bits >= 0x8000_0000
}

/// The biased exponent.
pub open spec fn biased_exponent(bits: u32) -> int {
    (bits as int / 0x80_0000) % 256
}

/// The fraction.
pub open spec fn fraction(bits: u32) -> int {
    bits as int % 0x80_0000
}

/// The bits stand for a number, neither infinite nor undefined.
pub open spec fn finite(bits: u32) -> bool {
    biased_exponent(bits) != 255
}

/// The exponent of the unit of the significand: the magnitude of a finite number is its
/// significand times 2^(unit - 150).
pub open spec fn unit(bits: u32) -> int {
    if biased_exponent(bits) == 0 {
        1
    } else {
        biased_exponent(bits)
    }
}

/// The significand, below 2^24.
pub open spec fn significand(bits: u32) -> int {
    if biased_exponent(bits) == 0 {
        fraction(bits)
    } else {
        0x80_0000 + fraction(bits)
    }
}

/// The finite number is less than zero.
pub open spec fn below_zero(bits: u32) -> bool {
    sign(bits) && significand(bits) != 0
}

/// The magnitude of a finite number, rounded to the nearest integer, halves up.
pub open spec fn rounded(bits: u32) -> int {
    if unit(bits) >= 150 {
        significand(bits) * pow2((unit(bits) - 150) as nat)
    } else {
        let half = pow2((149 - unit(bits)) as nat) as int;
        (significand(bits) + half) / (2 * half)
    }
}

/// The magnitude of a finite number, without its fractional part.
pub open spec fn truncated(bits: u32) -> int {
    if unit(bits) >= 150 {
        significand(bits) * pow2((unit(bits) - 150) as nat)
    } else {
        significand(bits) / pow2((150 - unit(bits)) as nat) as int
    }
}

/// The integer of 16 bits that is closest to a number cut off at the point: 0 for negative numbers
/// and where there is no number, 65535 for large ones.
pub open spec fn to_u16(bits: u32) -> u16 {
    if finite(bits) {
        if sign(bits) {
            0
        } else if truncated(bits) > 65535 {
            65535
        } else {
            truncated(bits) as u16
        }
    } else if sign(bits) || fraction(bits) != 0 {
        0
    } else {
        65535
    }
}

/// The bits stand for an integer.
pub open spec fn is_integer(bits: u32, n: int) -> bool {
    &&& finite(bits)
    &&& sign(bits) == (n < 0)
    &&& unit(bits) <= 150
    &&& significand(bits) == (if n < 0 {
        -n
    } else {
        n
    }) * pow2((150 - unit(bits)) as nat)
}

proof fn lemma_parts(bits: u32)
    ensures
        0 <= biased_exponent(bits) <= 255,
        0 <= fraction(bits) < 0x80_0000,
        0 <= significand(bits) < 0x100_0000,
        1 <= unit(bits) <= 255,
{
}

fn exponent_of(bits: u32) -> (e: u32)
    ensures
        e == biased_exponent(bits),
        e <= 255,
{
    (bits / 0x80_0000) % 256
}

fn significand_of(bits: u32) -> (m: u32)
    ensures
        m == significand(bits),
        m < 0x100_0000,
{
    let f: u32 = bits % 0x80_0000;
    if exponent_of(bits) == 0 {
        f
    } else {
        0x80_0000 + f
    }
}

fn unit_of(bits: u32) -> (e: u32)
    ensures
        e == unit(bits),
        1 <= e <= 255,
{
    let e: u32 = exponent_of(bits);
    if e == 0 {
        1
    } else {
        e
    }
}

/// 2^n for n below 127.
fn power(n: u32) -> (p: u128)
    requires
        n < 127,
    ensures
        p == pow2(n as nat),
        p >= 1,
{
    let mut p: u128 = 1;
    let mut i: u32 = 0;
    proof {
        vstd::arithmetic::power2::lemma2_to64();
        assert(0x8000_0000_0000_0000_0000_0000_0000_0000 == pow2(127)) by {
            vstd::arithmetic::power2::lemma_pow2_adds(64, 63);
            vstd::arithmetic::power2::lemma2_to64_rest();
        }
    }
    while i < n
        invariant
            i <= n < 127,
            p == pow2(i as nat),
            p >= 1,
            0x8000_0000_0000_0000_0000_0000_0000_0000 == pow2(127),
        decreases n - i,
    {
        proof {
            vstd::arithmetic::power2::lemma_pow2_unfold((i + 1) as nat);
            vstd::arithmetic::power2::lemma_pow2_strictly_increases(i as nat, 127);
        }
        p = 2 * p;
        i = i + 1;
    }
    p
}

fn scaled_up(m: u32, n: u32) -> (value: u128)
    requires
        m < 0x100_0000,
        n <= 104,
    ensures
        value == m * pow2(n as nat),
{
    let p: u128 = power(n);
    proof {
        vstd::arithmetic::power2::lemma2_to64();
        vstd::arithmetic::power2::lemma2_to64_rest();
        vstd::arithmetic::power2::lemma_pow2_adds(64, 40);
        if n < 104 {
            vstd::arithmetic::power2::lemma_pow2_strictly_increases(n as nat, 104);
        }
        assert(pow2(104) == 0x1_0000_0000_0000_0000 * 0x100_0000_0000);
        assert(m * p <= 0xff_ffff * (0x1_0000_0000_0000_0000 * 0x100_0000_0000))
            by (nonlinear_arith)
            requires
                m <= 0xff_ffff,
                p <= 0x1_0000_0000_0000_0000 * 0x100_0000_0000,
        ;
    }
    m as u128 * p
}

impl Single {
    /// The number is neither infinite nor undefined.
    pub fn is_finite(&self) -> (b: bool)
        ensures
            b == finite(self.bits),
    {
        exponent_of(self.bits) != 255
    }

    /// The number, which is finite, is less than zero.
    pub fn is_below_zero(&self) -> (b: bool)
        ensures
            b == below_zero(self.bits),
    {
        self.bits >= 0x8000_0000 && significand_of(self.bits) != 0
    }

    /// The number, which is finite, is zero.
    pub fn is_zero(&self) -> (b: bool)
        ensures
            b == (significand(self.bits) == 0),
    {
        significand_of(self.bits) == 0
    }

    /// The magnitude of the number, which is finite, rounded to the nearest integer, or the largest
    /// integer where that is too large.
    pub fn round(&self) -> (n: usize)
        requires
            finite(self.bits),
        ensures
            n == if rounded(self.bits) > usize::MAX {
                usize::MAX as int
            } else {
                rounded(self.bits)
            },
    {
        let e: u32 = unit_of(self.bits);
        let m: u32 = significand_of(self.bits);
        if e >= 150 {
            let value: u128 = scaled_up(m, e - 150);
            if value > usize::MAX as u128 {
                usize::MAX
            } else {
                value as usize
            }
        } else {
            let k: u32 = 149 - e;
            proof {
                lemma_parts(self.bits);
                vstd::arithmetic::power2::lemma2_to64();
                vstd::arithmetic::power2::lemma_pow2_pos(k as nat);
            }
            if k > 24 {
                proof {
                    vstd::arithmetic::power2::lemma_pow2_strictly_increases(24, k as nat);
                    let half = pow2(k as nat) as int;
                    vstd::arithmetic::div_mod::lemma_fundamental_div_mod_converse(
                        m + half,
                        2 * half,
                        0,
                        m + half,
                    );
                }
                return 0;
            }
            proof {
                if k < 24 {
                    vstd::arithmetic::power2::lemma_pow2_strictly_increases(k as nat, 24);
                }
            }
            let half: u64 = power(k) as u64;
            proof {
                assert((m + half) as int / (2 * half) <= m + half) by (nonlinear_arith)
                    requires
                        half >= 1,
                ;
            }
            ((m as u64 + half) / (2 * half)) as usize
        }
    }

    /// The number cut off at the point, as an integer of 16 bits.
    pub fn as_u16(&self) -> (n: u16)
        ensures
            n == to_u16(self.bits),
    {
        if self.bits >= 0x8000_0000 {
            return 0;
        }
        if exponent_of(self.bits) == 255 {
            return if self.bits % 0x80_0000 != 0 {
                0
            } else {
                65535
            };
        }
        let e: u32 = unit_of(self.bits);
        let m: u32 = significand_of(self.bits);
        if e >= 150 {
            let value: u128 = scaled_up(m, e - 150);
            if value > 65535 {
                65535
            } else {
                value as u16
            }
        } else {
            let k: u32 = 150 - e;
            proof {
                vstd::arithmetic::power2::lemma2_to64();
                vstd::arithmetic::power2::lemma_pow2_pos(k as nat);
            }
            if k > 24 {
                proof {
                    vstd::arithmetic::power2::lemma_pow2_strictly_increases(24, k as nat);
                    vstd::arithmetic::div_mod::lemma_fundamental_div_mod_converse(
                        m as int,
                        pow2(k as nat) as int,
                        0,
                        m as int,
                    );
                }
                return 0;
            }
            proof {
                if k < 24 {
                    vstd::arithmetic::power2::lemma_pow2_strictly_increases(k as nat, 24);
                }
            }
            let p: u32 = power(k) as u32;
            let value: u32 = m / p;
            if value > 65535 {
                65535
            } else {
                value as u16
            }
        }
    }
}

/// The bits of an integer.
pub fn single_bits(n: i32) -> (bits: u32)
    requires
        -0x100_0000 < n < 0x100_0000,
    ensures
        is_integer(bits, n as int),
        n == 0 ==> bits == 0,
{
    if n == 0 {
        assert(biased_exponent(0) == 0 && fraction(0) == 0);
        assert(0 * pow2(149) == 0);
        return 0;
    }
    let magnitude: u32 = if n < 0 {
        (-n) as u32
    } else {
        n as u32
    };
    let mut m: u32 = magnitude;
    let mut e: u32 = 150;
    proof {
        vstd::arithmetic::power2::lemma2_to64();
        assert(magnitude * pow2(0) == magnitude);
    }
    while m < 0x80_0000
        invariant
            1 <= magnitude < 0x100_0000,
            127 <= e <= 150,
            magnitude <= m < 0x100_0000,
            m == magnitude * pow2((150 - e) as nat),
        decreases 0x100_0000 - m,
    {
        proof {
            let k = (150 - e) as nat;
            vstd::arithmetic::power2::lemma_pow2_unfold(k + 1);
            assert(magnitude * (2 * pow2(k)) == 2 * (magnitude * pow2(k))) by (nonlinear_arith);
            vstd::arithmetic::power2::lemma2_to64();
            if k >= 23 {
                assert(magnitude * pow2(23) >= pow2(23)) by (nonlinear_arith)
                    requires
                        magnitude >= 1,
                ;
            }
        }
        m = 2 * m;
        e = e - 1;
    }
    let bits: u32 = e * 0x80_0000 + (m - 0x80_0000);
    proof {
        vstd::arithmetic::div_mod::lemma_fundamental_div_mod_converse(
            bits as int,
            0x80_0000,
            e as int,
            m - 0x80_0000,
        );
    }
    if n < 0 {
        let signed: u32 = bits + 0x8000_0000;
        proof {
            vstd::arithmetic::div_mod::lemma_fundamental_div_mod_converse(
                signed as int,
                0x80_0000,
                e + 256,
                m - 0x80_0000,
            );
        }
        signed
    } else {
        bits
    }
}

/// Rounding an integer gives that integer.
pub proof fn rounding_keeps_integers(bits: u32, n: int)
    requires
        is_integer(bits, n),
        0 <= n,
    ensures
        rounded(bits) == n,
        truncated(bits) == n,
{
    let u = unit(bits);
    vstd::arithmetic::power2::lemma2_to64();
    if u == 150 {
        assert(n * pow2(0) == n);
        assert(significand(bits) * pow2(0) == significand(bits));
    } else {
        let half = pow2((149 - u) as nat) as int;
        let whole = pow2((150 - u) as nat) as int;
        vstd::arithmetic::power2::lemma_pow2_pos((149 - u) as nat);
        vstd::arithmetic::power2::lemma_pow2_unfold((150 - u) as nat);
        assert(whole == 2 * half);
        vstd::arithmetic::div_mod::lemma_fundamental_div_mod_converse(
            n * whole + half,
            whole,
            n,
            half,
        );
        vstd::arithmetic::div_mod::lemma_fundamental_div_mod_converse(n * whole, whole, n, 0);
    }
}

proof fn lemma_bits_of_parts(bits: u32)
    ensures
        bits == (if sign(bits) {
            0x8000_0000int
        } else {
            0
        }) + biased_exponent(bits) * 0x80_0000 + fraction(bits),
{
}

/// A larger unit with the same magnitude would need a smaller significand than there is.
proof fn lemma_units_agree(a: u32, b: u32, n: int)
    requires
        is_integer(a, n),
        is_integer(b, n),
        n != 0,
    ensures
        unit(a) >= unit(b),
{
    if unit(a) < unit(b) {
        let m = if n < 0 {
            -n
        } else {
            n
        };
        let d = (unit(b) - unit(a)) as nat;
        let k = (150 - unit(b)) as nat;
        vstd::arithmetic::power2::lemma_pow2_adds(d, k);
        vstd::arithmetic::power2::lemma_pow2_unfold(d);
        vstd::arithmetic::power2::lemma_pow2_pos((d - 1) as nat);
        assert(m * (pow2(d) * pow2(k)) == (m * pow2(k)) * pow2(d)) by (nonlinear_arith);
        assert(significand(a) == significand(b) * pow2(d));
        assert(significand(b) * pow2(d) >= 2 * significand(b)) by (nonlinear_arith)
            requires
                pow2(d) >= 2,
                significand(b) >= 0,
        ;
    }
}

/// An integer has one representation.
pub proof fn integers_have_one_representation(a: u32, b: u32, n: int)
    requires
        is_integer(a, n),
        is_integer(b, n),
    ensures
        a == b,
{
    lemma_bits_of_parts(a);
    lemma_bits_of_parts(b);
    if n == 0 {
        assert(0 * pow2((150 - unit(a)) as nat) == 0);
        assert(0 * pow2((150 - unit(b)) as nat) == 0);
    } else {
        lemma_units_agree(a, b, n);
        lemma_units_agree(b, a, n);
    }
}

} // verus!
