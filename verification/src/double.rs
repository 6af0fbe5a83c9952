//! IEEE 754 binary64 values, held by their bit patterns, and their
//! conversions from and to binary32.

use vstd::prelude::*;
use vstd::arithmetic::power2::lemma2_to64;
use vstd::arithmetic::power2::lemma2_to64_rest;
use vstd::arithmetic::power2::lemma_pow2_adds;
use vstd::arithmetic::power2::lemma_pow2_pos;
use vstd::arithmetic::power2::pow2;
use crate::binary::lemma_magnitude_at;
use crate::binary::lemma_magnitude_injective;
use crate::binary::lemma_pattern_split;
use crate::binary::magnitude;
use crate::bits::bit_length;
use crate::bits::power_of_two;
use crate::nearest::is_nearest;
use crate::nearest::lemma_exact_is_nearest;
use crate::nearest::lemma_nearest_is_unique;
use crate::nearest::lemma_nearest_scales;
use crate::nearest::lemma_overflow_is_nearest;
use crate::nearest::round_ratio;
use crate::single::Single;

verus! {

/// An IEEE 754 binary64 value (an `f64` in memory), held by its bit pattern:
/// the sign in bit 63, the exponent field in bits 52 to 62, the fraction
/// field below.
#[derive(Clone, Copy, Debug, PartialEq, Eq, Structural)]
pub struct Double {
    pub bits: u64,
}

/// The magnitude of a binary64 pattern, in units of two to the power of
/// -1074.
pub open spec fn double_magnitude(abs: int) -> int {
    magnitude(abs, 0x10_0000_0000_0000)
}

impl Double {
    /// The sign bit is set. This holds of negative zero and of some NaNs too.
    pub open spec fn is_negative(self) -> bool {
        self.bits >= 0x8000_0000_0000_0000
    }

    /// The pattern without its sign bit.
    pub open spec fn abs(self) -> int {
        if self.bits >= 0x8000_0000_0000_0000 {
            self.bits - 0x8000_0000_0000_0000
        } else {
            self.bits as int
        }
    }

    /// Not a number.
    pub open spec fn is_nan(self) -> bool {
        self.abs() > 0x7ff0_0000_0000_0000
    }

    /// Positive or negative infinity.
    pub open spec fn is_infinite(self) -> bool {
        self.abs() == 0x7ff0_0000_0000_0000
    }

    /// Zero, subnormal or normal.
    pub open spec fn is_finite(self) -> bool {
        self.abs() < 0x7ff0_0000_0000_0000
    }

    /// The absolute value, in units of two to the power of -1074. Infinity
    /// counts as two to the power of 1024.
    pub open spec fn magnitude(self) -> int {
        double_magnitude(self.abs())
    }

    /// The value is the binary32 `s` written as a binary64: a NaN for a NaN,
    /// else the same sign and the same magnitude.
    pub open spec fn is_widened(self, s: Single) -> bool {
        &&& s.is_nan() ==> self.is_nan()
        &&& !s.is_nan() ==> self.is_negative() == s.is_negative()
        &&& s.is_infinite() ==> self.is_infinite()
        &&& s.is_finite() ==> self.is_finite() && self.magnitude() == s.magnitude() * pow2(925)
    }

    /// The binary32 `s` is what the value rounds to: a NaN for a NaN, else
    /// the same sign and the nearest magnitude, ties to even, infinity where
    /// the value is too large.
    pub open spec fn is_narrowed(self, s: Single) -> bool {
        &&& self.is_nan() ==> s.is_nan()
        &&& !self.is_nan() ==> s.is_negative() == self.is_negative() && is_nearest(
            self.magnitude(),
            pow2(925) as int,
            s.abs(),
        )
    }

    /// The value with the given bit pattern.
    pub fn from_bits(bits: u64) -> (r: Double)
        ensures
            r.bits == bits,
    {
        Double { bits }
    }

    /// The bit pattern of the value.
    pub fn to_bits(self) -> (bits: u64)
        ensures
            bits == self.bits,
    {
        self.bits
    }

    /// The pattern without its sign bit.
    pub fn abs_bits(self) -> (abs: u64)
        ensures
            abs == self.abs(),
    {
        if self.bits >= 0x8000_0000_0000_0000 {
            self.bits - 0x8000_0000_0000_0000
        } else {
            self.bits
        }
    }

    /// The binary32 as a binary64 of the same value: what `f64::from(x)`
    /// gives. A NaN gives a NaN.
    pub fn from_single(s: Single) -> (d: Double)
        ensures
            d.is_widened(s),
    {
        let abs = s.abs_bits();
        let sign: u64 = if s.is_sign_negative() {
            0x8000_0000_0000_0000
        } else {
            0
        };
        let e: u64 = (abs / 0x80_0000) as u64;
        let f: u64 = (abs % 0x80_0000) as u64;
        proof {
            lemma2_to64();
            lemma2_to64_rest();
            lemma_pattern_split(abs as int, 0x80_0000);
        }
        let wide: u64 = if e == 255 {
            if f == 0 {
                0x7ff0_0000_0000_0000
            } else {
                // a quiet NaN that keeps the payload
                let payload: u64 = if f < 0x40_0000 {
                    f + 0x40_0000
                } else {
                    f
                };
                0x7ff0_0000_0000_0000 + payload * 0x2000_0000
            }
        } else if e > 0 {
            proof {
                let g = (e + 895) as nat;
                let m = (0x80_0000 + f) * 0x2000_0000;
                lemma_magnitude_at(g, m, 0x10_0000_0000_0000);
                lemma_pow2_adds(29, g);
                lemma_pow2_adds((e - 1) as nat, 925);
                assert(g * 0x10_0000_0000_0000 + m == (e + 896) * 0x10_0000_0000_0000 + f
                    * 0x2000_0000);
                assert(m * pow2(g) == ((0x80_0000 + f) * pow2((e - 1) as nat)) * pow2(925))
                    by (nonlinear_arith)
                    requires
                        m == (0x80_0000 + f) * 0x2000_0000,
                        0x2000_0000 * pow2(g) == pow2((e - 1) as nat) * pow2(925),
                ;
            }
            (e + 896) * 0x10_0000_0000_0000 + f * 0x2000_0000
        } else if f == 0 {
            proof {
                lemma_magnitude_at(0, 0, 0x10_0000_0000_0000);
                assert(0 * pow2(925) == 0);
            }
            0
        } else {
            // a subnormal binary32 is a normal binary64
            let len = bit_length(f);
            proof {
                if len > 23 {
                    vstd::arithmetic::power2::lemma_pow2_strictly_increases(23, (len - 1) as nat);
                }
            }
            let up = power_of_two(53 - len);
            proof {
                let g = (len + 872) as nat;
                let m = f * up;
                lemma_pow2_adds(len as nat, (53 - len) as nat);
                lemma_pow2_adds((len - 1) as nat, (53 - len) as nat);
                lemma_pow2_adds((53 - len) as nat, g);
                lemma_pow2_pos((53 - len) as nat);
                assert(pow2((len - 1) as nat) * up <= f * up < pow2(len as nat) * up)
                    by (nonlinear_arith)
                    requires
                        pow2((len - 1) as nat) <= f < pow2(len as nat),
                        up > 0,
                ;
                lemma_magnitude_at(g, m as int, 0x10_0000_0000_0000);
                assert(m * pow2(g) == f * pow2(925)) by (nonlinear_arith)
                    requires
                        m == f * up,
                        up * pow2(g) == pow2(925),
                ;
                assert(f * pow2(0) == f);
            }
            (len as u64 + 872) * 0x10_0000_0000_0000 + f * up
        };
        Double { bits: sign + wide }
    }

    /// The binary64 as the nearest binary32, ties to even: what `x as f32`
    /// gives. A value too large for binary32 gives infinity, a NaN gives a
    /// NaN.
    pub fn to_single(self) -> (s: Single)
        ensures
            self.is_narrowed(s),
    {
        let abs = self.abs_bits();
        let sign: u32 = if self.bits >= 0x8000_0000_0000_0000 {
            0x8000_0000
        } else {
            0
        };
        let e: u64 = abs / 0x10_0000_0000_0000;
        let f: u64 = abs % 0x10_0000_0000_0000;
        if abs > 0x7ff0_0000_0000_0000 {
            // a quiet NaN that keeps the top of the payload
            let top: u32 = (f / 0x2000_0000) as u32;
            let payload: u32 = if top < 0x40_0000 {
                top + 0x40_0000
            } else {
                top
            };
            return Single { bits: sign + 0x7f80_0000 + payload };
        }
        let m: u64 = if e == 0 {
            f
        } else {
            0x10_0000_0000_0000 + f
        };
        let g: u64 = if e == 0 {
            0
        } else {
            e - 1
        };
        let k: i32 = g as i32 - 925;
        let narrow = round_ratio(m, 1, k);
        proof {
            lemma2_to64();
            lemma_pow2_pos(g as nat);
            lemma_pow2_pos(925);
            if g >= 925 {
                let kp = (g - 925) as nat;
                lemma_pow2_adds(kp, 925);
                assert((m * pow2(kp)) * pow2(925) == m * pow2(g as nat)) by (nonlinear_arith)
                    requires
                        pow2(g as nat) == pow2(kp) * pow2(925),
                ;
                let one = 1 * pow2(0);
                assert(one * pow2(925) == pow2(925)) by (nonlinear_arith)
                    requires
                        one == 1,
                ;
                lemma_nearest_scales(
                    m * pow2(kp),
                    (1 * pow2(0)) as int,
                    pow2(925) as int,
                    narrow as int,
                );
            } else {
                let kn = (925 - g) as nat;
                lemma_pow2_adds(kn, g as nat);
                let whole = m * pow2(0);
                assert(whole * pow2(g as nat) == m * pow2(g as nat)) by (nonlinear_arith)
                    requires
                        whole == m,
                ;
                let part = 1 * pow2(kn);
                assert(part * pow2(g as nat) == pow2(925)) by (nonlinear_arith)
                    requires
                        part == pow2(kn),
                        pow2(kn) * pow2(g as nat) == pow2(925),
                ;
                lemma_nearest_scales(
                    m * pow2(0),
                    (1 * pow2(kn)) as int,
                    pow2(g as nat) as int,
                    narrow as int,
                );
            }
        }
        Single { bits: sign + narrow }
    }
}

/// A binary32 that is no NaN has one binary64 of its value.
pub proof fn lemma_widened_is_unique(s: Single, a: Double, b: Double)
    requires
        !s.is_nan(),
        a.is_widened(s),
        b.is_widened(s),
    ensures
        a == b,
{
    if s.is_finite() {
        lemma_magnitude_injective(a.abs(), b.abs(), 0x10_0000_0000_0000);
    }
}

/// A binary64 that is no NaN rounds to one binary32.
pub proof fn lemma_narrowed_is_unique(d: Double, a: Single, b: Single)
    requires
        !d.is_nan(),
        d.is_narrowed(a),
        d.is_narrowed(b),
    ensures
        a == b,
{
    lemma_pow2_pos(925);
    lemma_nearest_is_unique(d.magnitude(), pow2(925) as int, a.abs(), b.abs());
}

/// Written as a binary64 and rounded again, a binary32 that is no NaN comes
/// back as it was: nothing is lost on the way up.
pub proof fn lemma_widen_then_narrow(s: Single, d: Double, back: Single)
    requires
        !s.is_nan(),
        d.is_widened(s),
        d.is_narrowed(back),
    ensures
        back == s,
{
    let scale = pow2(925) as int;
    lemma_pow2_pos(925);
    if s.is_finite() {
        lemma_exact_is_nearest(scale, s.abs());
    } else {
        // infinity: two to the power of 1024 lies far above two to the power of 128
        lemma2_to64();
        lemma2_to64_rest();
        lemma_magnitude_at(2046, 0x10_0000_0000_0000, 0x10_0000_0000_0000);
        lemma_pow2_adds(254, 925);
        lemma_pow2_adds(23, 1179);
        lemma_pow2_adds(52, 2046);
        vstd::arithmetic::power2::lemma_pow2_strictly_increases(1202, 2098);
        assert(0x80_0000 * (pow2(254) * scale) == pow2(1202)) by (nonlinear_arith)
            requires
                pow2(1179) == pow2(254) * scale,
                pow2(1202) == 0x80_0000 * pow2(1179),
        ;
        lemma_overflow_is_nearest(d.magnitude(), scale, 254, 0x80_0000);
    }
    lemma_nearest_is_unique(d.magnitude(), scale, back.abs(), s.abs());
}

/// A binary64 that is no NaN, rounded to a binary32, written as a binary64
/// and rounded again, rounds to the same binary32: what the first rounding
/// kept, the way back and forth keeps.
pub proof fn lemma_narrow_then_widen(d: Double, s: Single, back: Double, again: Single)
    requires
        !d.is_nan(),
        d.is_narrowed(s),
        back.is_widened(s),
        back.is_narrowed(again),
    ensures
        again == s,
{
    lemma_widen_then_narrow(s, back, again);
}

/// A binary64 that holds the value of a binary32 comes back as it was.
pub proof fn lemma_exact_round_trip(d: Double, origin: Single, s: Single, back: Double)
    requires
        !origin.is_nan(),
        d.is_widened(origin),
        d.is_narrowed(s),
        back.is_widened(s),
    ensures
        back == d,
{
    lemma_widen_then_narrow(origin, d, s);
    lemma_widened_is_unique(origin, d, back);
}

} // verus!
