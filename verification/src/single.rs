//! IEEE 754 binary32 values, held by their bit patterns, and their
//! conversions from and to integers and colour channels.

use vstd::prelude::*;
use vstd::arithmetic::div_mod::lemma_basic_div;
use vstd::arithmetic::div_mod::lemma_div_by_multiple;
use vstd::arithmetic::div_mod::lemma_div_denominator;
use vstd::arithmetic::power2::lemma2_to64;
use vstd::arithmetic::power2::lemma_pow2_adds;
use vstd::arithmetic::power2::lemma_pow2_pos;
use vstd::arithmetic::power2::lemma_pow2_strictly_increases;
use vstd::arithmetic::power2::pow2;
use crate::binary::lemma_magnitude_at;
use crate::binary::lemma_magnitude_step;
use crate::binary::lemma_pattern_split;
use crate::binary::lemma_quantum_is_small;
use crate::binary::quantum;
use crate::binary::significand;
use crate::bits::power_of_two;
use crate::nearest::is_nearest;
use crate::nearest::lemma_exact_is_nearest;
use crate::nearest::lemma_nearest_is_unique;
use crate::nearest::lemma_nearest_keeps_order;
use crate::nearest::lemma_zero_is_nearest;
use crate::nearest::round_ratio;
use crate::nearest::single_magnitude;

verus! {

/// An IEEE 754 binary32 value (an `f32` in memory), held by its bit pattern:
/// the sign in bit 31, the exponent field in bits 23 to 30, the fraction
/// field below.
#[derive(Clone, Copy, Debug, PartialEq, Eq, Structural)]
pub struct Single {
    pub bits: u32,
}

/// `x`, or `max` where `x` is above it.
pub open spec fn at_most(x: int, max: int) -> int {
    if x > max {
        max
    } else {
        x
    }
}

impl Single {
    /// The sign bit is set. This holds of negative zero and of some NaNs too.
    pub open spec fn is_negative(self) -> bool {
        self.bits >= 0x8000_0000
    }

    /// The pattern without its sign bit.
    pub open spec fn abs(self) -> int {
        if self.bits >= 0x8000_0000 {
            self.bits - 0x8000_0000
        } else {
            self.bits as int
        }
    }

    /// Not a number.
    pub open spec fn is_nan(self) -> bool {
        self.abs() > 0x7f80_0000
    }

    /// Positive or negative infinity.
    pub open spec fn is_infinite(self) -> bool {
        self.abs() == 0x7f80_0000
    }

    /// Zero, subnormal or normal.
    pub open spec fn is_finite(self) -> bool {
        self.abs() < 0x7f80_0000
    }

    /// The absolute value, in units of two to the power of -149. Infinity
    /// counts as two to the power of 128.
    pub open spec fn magnitude(self) -> int {
        single_magnitude(self.abs())
    }

    /// The value without its fractional part, as far as it is positive: zero
    /// for NaN and for anything with the sign bit set.
    pub open spec fn integer_part(self) -> int {
        if self.is_nan() || self.is_negative() {
            0
        } else {
            self.magnitude() / (pow2(149) as int)
        }
    }

    /// The value is what the unsigned integer `n` rounds to: the binary32
    /// nearest to it, ties to even.
    pub open spec fn is_nearest_to_u32(self, n: u32) -> bool {
        is_nearest(n * pow2(149), 1, self.bits as int)
    }

    /// The value is what the colour channel `c` rounds to: the binary32
    /// nearest to `c / 255`, ties to even.
    pub open spec fn is_nearest_to_channel(self, c: u8) -> bool {
        is_nearest(c * pow2(149), 255, self.bits as int)
    }

    /// The unsigned integer that the value truncates to, held to the range
    /// of `u32`.
    pub open spec fn truncated(self) -> int {
        at_most(self.integer_part(), u32::MAX as int)
    }

    /// `c` is the colour channel that the value stands for: zero for NaN and
    /// for anything with the sign bit set; else the value times 255,
    /// rounded to the nearest binary32, then truncated and held to the range
    /// of `u8`.
    pub open spec fn has_channel(self, c: u8) -> bool {
        if self.is_nan() || self.is_negative() {
            c == 0
        } else {
            exists|product: int|
                #![trigger is_nearest(self.magnitude() * 255, 1, product)]
                is_nearest(self.magnitude() * 255, 1, product) && c == at_most(
                    single_magnitude(product) / (pow2(149) as int),
                    255,
                )
        }
    }

    /// Positive zero.
    pub open spec fn spec_zero() -> Single {
        Single { bits: 0 }
    }

    /// Positive zero.
    #[verifier::when_used_as_spec(spec_zero)]
    pub fn zero() -> (r: Single)
        ensures
            r == Single::spec_zero(),
    {
        Single { bits: 0 }
    }

    /// The value with the given bit pattern.
    pub fn from_bits(bits: u32) -> (r: Single)
        ensures
            r.bits == bits,
    {
        Single { bits }
    }

    /// The bit pattern of the value.
    pub fn to_bits(self) -> (bits: u32)
        ensures
            bits == self.bits,
    {
        self.bits
    }

    /// Whether the sign bit is set.
    pub fn is_sign_negative(self) -> (b: bool)
        ensures
            b == self.is_negative(),
    {
        self.bits >= 0x8000_0000
    }

    /// The pattern without its sign bit.
    pub fn abs_bits(self) -> (abs: u32)
        ensures
            abs == self.abs(),
    {
        if self.bits >= 0x8000_0000 {
            self.bits - 0x8000_0000
        } else {
            self.bits
        }
    }

    /// The unsigned integer as a binary32, rounded to the nearest, ties to
    /// even: what `n as f32` gives.
    pub fn from_u32(n: u32) -> (r: Single)
        ensures
            r.is_nearest_to_u32(n),
    {
        let abs = round_ratio(n as u64, 1, 149);
        proof {
            assert(1 * pow2(0) == 1) by {
                lemma2_to64();
            }
        }
        Single { bits: abs }
    }

    /// The unsigned integer that the value truncates to, held to the range
    /// of `u32`: what `x as u32` gives. NaN and anything negative give zero.
    pub fn to_u32(self) -> (n: u32)
        ensures
            n == self.truncated(),
    {
        let abs = self.abs_bits();
        if self.bits >= 0x8000_0000 || abs > 0x7f80_0000 {
            return 0;
        }
        let e: u32 = abs / 0x80_0000;
        let f: u32 = abs % 0x80_0000;
        proof {
            lemma_pattern_split(abs as int, 0x80_0000);
            lemma_integer_part(significand(abs as int, 0x80_0000), quantum(abs as int, 0x80_0000));
            lemma2_to64();
        }
        if e < 127 {
            // below one
            proof {
                let m = significand(abs as int, 0x80_0000);
                let g = quantum(abs as int, 0x80_0000);
                if g < 125 {
                    lemma_pow2_strictly_increases(24, (149 - g) as nat);
                }
                lemma_basic_div(m, pow2((149 - g) as nat) as int);
            }
            0
        } else if e > 158 {
            // two to the power of 32, or more
            proof {
                let g = quantum(abs as int, 0x80_0000);
                let p = pow2((g - 149) as nat) as int;
                if g > 158 {
                    lemma_pow2_strictly_increases(9, (g - 149) as nat);
                }
                assert((0x80_0000 + f) * p >= 0x1_0000_0000) by (nonlinear_arith)
                    requires
                        p >= 0x200,
                        f >= 0,
                ;
            }
            u32::MAX
        } else if e >= 150 {
            let p = power_of_two(e - 150);
            proof {
                if e < 158 {
                    lemma_pow2_strictly_increases((e - 150) as nat, 8);
                }
                assert((0x80_0000 + f) * p < 0x1_0000_0000) by (nonlinear_arith)
                    requires
                        p <= 0x100,
                        f < 0x80_0000,
                ;
            }
            ((0x80_0000 + f) as u64 * p) as u32
        } else {
            let p = power_of_two(150 - e);
            ((0x80_0000 + f) as u64 / p) as u32
        }
    }

    /// The colour channel as a binary32 between zero and one: the channel
    /// divided by 255, rounded to the nearest, ties to even.
    pub fn from_channel(c: u8) -> (r: Single)
        ensures
            r.is_nearest_to_channel(c),
    {
        let abs = round_ratio(c as u64, 255, 149);
        proof {
            assert(255 * pow2(0) == 255) by {
                lemma2_to64();
            }
        }
        Single { bits: abs }
    }

    /// The value times 255, rounded to the nearest binary32, ties to even.
    fn channel_product(self) -> (p: Single)
        requires
            !self.is_nan(),
            !self.is_negative(),
        ensures
            is_nearest(self.magnitude() * 255, 1, p.bits as int),
    {
        let abs = self.bits;
        let e: u32 = abs / 0x80_0000;
        let f: u32 = abs % 0x80_0000;
        let m: u32 = if e == 0 {
            f
        } else {
            0x80_0000 + f
        };
        let g: u32 = if e == 0 {
            0
        } else {
            e - 1
        };
        let product = round_ratio(m as u64 * 255, 1, g as i32);
        proof {
            lemma2_to64();
            assert(1 * pow2(0) == 1);
            assert((m * 255) * pow2(g as nat) == (m * pow2(g as nat)) * 255) by (nonlinear_arith);
        }
        Single { bits: product }
    }

    /// The colour channel that the value stands for: the value times 255,
    /// rounded to the nearest binary32, then truncated and held to the range
    /// of `u8`. NaN and anything negative give zero.
    pub fn to_channel(self) -> (c: u8)
        ensures
            self.has_channel(c),
    {
        if self.bits >= 0x7f80_0001 {
            return 0;
        }
        let product = self.channel_product();
        let n = product.to_u32();
        proof {
            assert(is_nearest(self.magnitude() * 255, 1, product.bits as int));
        }
        if n > 255 {
            255
        } else {
            n as u8
        }
    }
}

/// The integer part of a magnitude, from its significand and its quantum
/// exponent.
pub proof fn lemma_integer_part(m: int, g: nat)
    requires
        0 <= m,
    ensures
        g >= 149 ==> (m * pow2(g)) / (pow2(149) as int) == m * pow2((g - 149) as nat),
        g < 149 ==> (m * pow2(g)) / (pow2(149) as int) == m / (pow2((149 - g) as nat) as int),
{
    lemma_pow2_pos(149);
    lemma_pow2_pos(g);
    if g >= 149 {
        let rest = pow2((g - 149) as nat);
        lemma_pow2_adds((g - 149) as nat, 149);
        assert(m * (rest * pow2(149)) == (m * rest) * pow2(149)) by (nonlinear_arith);
        assert(0 <= m * rest) by (nonlinear_arith)
            requires
                0 <= m,
                0 <= rest,
        ;
        lemma_div_by_multiple(m * rest, pow2(149) as int);
    } else {
        let rest = pow2((149 - g) as nat);
        lemma_pow2_pos((149 - g) as nat);
        lemma_pow2_adds(g, (149 - g) as nat);
        assert(0 <= m * pow2(g)) by (nonlinear_arith)
            requires
                0 <= m,
                0 <= pow2(g),
        ;
        lemma_div_denominator(m * pow2(g), pow2(g) as int, rest as int);
        lemma_div_by_multiple(m, pow2(g) as int);
    }
}

/// A value stands for one colour channel only.
pub proof fn lemma_channel_is_unique(s: Single, a: u8, b: u8)
    requires
        s.has_channel(a),
        s.has_channel(b),
    ensures
        a == b,
{
    if !s.is_nan() && !s.is_negative() {
        let x = s.magnitude() * 255;
        let p = choose|p: int|
            #![trigger is_nearest(x, 1, p)]
            is_nearest(x, 1, p) && a == at_most(single_magnitude(p) / (pow2(149) as int), 255);
        let q = choose|q: int|
            #![trigger is_nearest(x, 1, q)]
            is_nearest(x, 1, q) && b == at_most(single_magnitude(q) / (pow2(149) as int), 255);
        lemma_nearest_is_unique(x, 1, p, q);
    }
}

/// An unsigned integer of `bits` bits at most, where that is at most 24, is
/// the value of a binary32: `abs` is the pattern.
proof fn lemma_integer_pattern(n: int, bits: nat) -> (abs: int)
    requires
        0 <= n < pow2(bits),
        bits <= 24,
    ensures
        0 <= abs < 0x7f80_0000,
        single_magnitude(abs) == n * pow2(149),
    decreases bits,
{
    lemma2_to64();
    if bits == 0 {
        lemma_magnitude_at(0, 0, 0x80_0000);
        assert(0 * pow2(0) == 0 && 0 * pow2(149) == 0);
        0
    } else if n < pow2((bits - 1) as nat) {
        lemma_integer_pattern(n, (bits - 1) as nat)
    } else {
        // the highest bit of the significand is set once `n` is shifted up
        let up = pow2((24 - bits) as nat) as int;
        let g = (125 + bits) as nat;
        let m = n * up;
        lemma_pow2_pos((24 - bits) as nat);
        lemma_pow2_adds((bits - 1) as nat, (24 - bits) as nat);
        lemma_pow2_adds(bits, (24 - bits) as nat);
        lemma_pow2_adds((24 - bits) as nat, g);
        assert(0x80_0000 <= m < 0x100_0000) by (nonlinear_arith)
            requires
                m == n * up,
                pow2((bits - 1) as nat) <= n < pow2(bits),
                pow2((bits - 1) as nat) * up == 0x80_0000,
                pow2(bits) * up == 0x100_0000,
                0 < up,
        ;
        lemma_magnitude_at(g, m, 0x80_0000);
        assert(m * pow2(g) == n * pow2(149)) by (nonlinear_arith)
            requires
                m == n * up,
                up * pow2(g) == pow2(149),
        ;
        g * 0x80_0000 + m
    }
}

/// An unsigned integer of at most 24 bits is the value of the binary32 that
/// it rounds to, and comes back from it as it was.
pub proof fn lemma_small_integer_round_trip(n: u32, s: Single)
    requires
        n < 0x100_0000,
        s.is_nearest_to_u32(n),
    ensures
        !s.is_negative(),
        s.is_finite(),
        s.magnitude() == n * pow2(149),
        s.truncated() == n,
{
    let unit = pow2(149) as int;
    lemma2_to64();
    lemma_pow2_pos(149);
    let abs = lemma_integer_pattern(n as int, 24);
    lemma_exact_is_nearest(1, abs);
    lemma_nearest_is_unique(n * unit, 1, s.bits as int, abs);
    lemma_div_by_multiple(n as int, unit);
}

/// The magnitude of one.
pub proof fn lemma_magnitude_of_one()
    ensures
        single_magnitude(0x3f80_0000) == pow2(149),
        pow2(149) == 0x80_0000 * pow2(126),
{
    lemma2_to64();
    lemma_magnitude_at(126, 0x80_0000, 0x80_0000);
    lemma_pow2_adds(23, 126);
}

/// How far a binary32 that a colour channel rounds to lies from the channel:
/// times 255, less than a 65536th of one unit of the channel. Such a value
/// is at most one.
pub proof fn lemma_channel_error(c: u8, s: Single)
    requires
        s.is_nearest_to_channel(c),
    ensures
        s.bits <= 0x3f80_0000,
        2 * c * pow2(149) - 255 * pow2(126) <= 2 * (255 * s.magnitude()) <= 2 * c * pow2(149) + 255
            * pow2(126),
{
    let unit = pow2(149) as int;
    let b = s.bits as int;
    let v = single_magnitude(b);
    let top = pow2(126) as int;
    lemma_magnitude_of_one();
    assert(c * unit <= unit * 255) by (nonlinear_arith)
        requires
            c <= 255,
            0 <= unit,
    ;
    lemma_nearest_keeps_order(c * unit, 255, b, 0x3f80_0000);
    // one step up from the value
    let up = pow2(quantum(b, 0x80_0000)) as int;
    lemma_magnitude_step(b, 0x80_0000);
    if quantum(b, 0x80_0000) < 126 {
        lemma_pow2_strictly_increases(quantum(b, 0x80_0000), 126);
    }
    assert((v + (v + up)) * 255 == 2 * (255 * v) + 255 * up) by (nonlinear_arith);
    assert(2 * (c * unit) == 2 * c * unit) by (nonlinear_arith);
    if b > 0 {
        // one step down from the value
        let down = pow2(quantum(b - 1, 0x80_0000)) as int;
        lemma_magnitude_step(b - 1, 0x80_0000);
        if quantum(b - 1, 0x80_0000) < 126 {
            lemma_pow2_strictly_increases(quantum(b - 1, 0x80_0000), 126);
        }
        assert(((v - down) + v) * 255 == 2 * (255 * v) - 255 * down) by (nonlinear_arith);
    } else {
        lemma_magnitude_at(0, 0, 0x80_0000);
        assert(0 <= 2 * c * unit) by (nonlinear_arith)
            requires
                0 <= c,
                0 <= unit,
        ;
    }
}

/// A colour channel that went into a vector comes back as itself, or as one
/// less.
pub proof fn lemma_channel_round_trip(c: u8, s: Single, back: u8)
    requires
        s.is_nearest_to_channel(c),
        s.has_channel(back),
    ensures
        back == c || back + 1 == c,
{
    let unit = pow2(149) as int;
    let top = pow2(126) as int;
    let x = 255 * s.magnitude();
    lemma_channel_error(c, s);
    lemma_magnitude_of_one();
    let p = choose|p: int|
        #![trigger is_nearest(s.magnitude() * 255, 1, p)]
        is_nearest(s.magnitude() * 255, 1, p) && back == at_most(
            single_magnitude(p) / (pow2(149) as int),
            255,
        );
    let w = single_magnitude(p);
    assert(s.magnitude() * 255 == x) by (nonlinear_arith)
        requires
            x == 255 * s.magnitude(),
    ;
    lemma_magnitude_step(p, 0x80_0000);
    lemma_pow2_pos(126);
    // not below the channel before
    if w < (c - 1) * unit {
        let up = pow2(quantum(p, 0x80_0000)) as int;
        lemma_quantum_is_small(p, 0x80_0000);
        lemma_magnitude_at(254, 0x80_0000, 0x80_0000);
        lemma2_to64();
        lemma_pow2_adds(8, 126);
        lemma_pow2_strictly_increases(134, 254);
        assert((c - 1) * unit <= 254 * unit) by (nonlinear_arith)
            requires
                c <= 255,
                0 <= unit,
        ;
        assert(254 * unit < 0x80_0000 * pow2(254)) by (nonlinear_arith)
            requires
                unit == 0x80_0000 * pow2(126),
                256 * pow2(126) < pow2(254),
                0 < pow2(126),
        ;
        assert(p < 0x7f80_0000);
        assert((w + (w + up)) * 1 == 2 * w + up);
        assert((c - 1) * unit == c * unit - unit) by (nonlinear_arith);
        assert(2 * c * unit == 2 * (c * unit)) by (nonlinear_arith);
        assert(false);
    }
    // below the channel after
    if w >= (c + 1) * unit {
        assert((c + 1) * unit == c * unit + unit) by (nonlinear_arith);
        assert(2 * c * unit == 2 * (c * unit)) by (nonlinear_arith);
        assert(0 <= c * unit <= 255 * unit) by (nonlinear_arith)
            requires
                0 <= c <= 255,
                0 <= unit,
        ;
        lemma_magnitude_at(0, 0, 0x80_0000);
        assert(p > 0);
        let down = pow2(quantum(p - 1, 0x80_0000)) as int;
        lemma_magnitude_step(p - 1, 0x80_0000);
        lemma_quantum_is_small(p - 1, 0x80_0000);
        assert(((w - down) + w) * 1 == 2 * w - down);
        assert(false);
    }
    assert(w / unit == c || w / unit == c - 1) by (nonlinear_arith)
        requires
            (c - 1) * unit <= w < (c + 1) * unit,
            0 < unit,
    ;
}

/// The full channel is exactly one, and one is exactly the full channel.
pub proof fn lemma_full_channel_round_trip(s: Single, back: u8)
    requires
        s.is_nearest_to_channel(255),
        s.has_channel(back),
    ensures
        s.bits == 0x3f80_0000,
        back == 255,
{
    let unit = pow2(149) as int;
    lemma_magnitude_of_one();
    lemma_pow2_pos(149);
    lemma_exact_is_nearest(255, 0x3f80_0000);
    lemma_nearest_is_unique(255 * unit, 255, s.bits as int, 0x3f80_0000);
    // 255 is the significand 255 * 2^16 at the quantum exponent 133
    lemma2_to64();
    lemma_magnitude_at(133, 0xff_0000, 0x80_0000);
    lemma_pow2_adds(16, 133);
    assert(0xff_0000 * pow2(133) == 255 * unit) by (nonlinear_arith)
        requires
            unit == 0x1_0000 * pow2(133),
    ;
    lemma_exact_is_nearest(1, 0x437f_0000);
    let p = choose|p: int|
        #![trigger is_nearest(s.magnitude() * 255, 1, p)]
        is_nearest(s.magnitude() * 255, 1, p) && back == at_most(
            single_magnitude(p) / (pow2(149) as int),
            255,
        );
    lemma_nearest_is_unique(unit * 255, 1, p, 0x437f_0000);
    lemma_div_by_multiple(255, unit);
}

/// The empty channel is exactly zero, and zero is exactly the empty channel.
pub proof fn lemma_empty_channel_round_trip(s: Single, back: u8)
    requires
        s.is_nearest_to_channel(0),
        s.has_channel(back),
    ensures
        s.bits == 0,
        back == 0,
{
    lemma_zero_is_nearest(255);
    lemma_nearest_is_unique(0, 255, s.bits as int, 0);
    lemma_magnitude_at(0, 0, 0x80_0000);
    assert(0 * pow2(0) == 0);
    lemma_zero_is_nearest(1);
    let p = choose|p: int|
        #![trigger is_nearest(s.magnitude() * 255, 1, p)]
        is_nearest(s.magnitude() * 255, 1, p) && back == at_most(
            single_magnitude(p) / (pow2(149) as int),
            255,
        );
    lemma_nearest_is_unique(0, 1, p, 0);
    lemma_pow2_pos(149);
    lemma_basic_div(0, pow2(149) as int);
}

} // verus!
