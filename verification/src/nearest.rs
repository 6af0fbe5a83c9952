//! Rounding a non-negative ratio to the nearest binary32 magnitude, ties to
//! even.
//!
//! The exact value is `num / den` in units of the smallest subnormal
//! (two to the power of -149). Patterns are taken without the sign bit. The
//! pattern of infinity stands for two to the power of 128, so a value at or
//! above the midpoint between the largest finite number and that power rounds
//! to infinity.

use vstd::prelude::*;
use vstd::arithmetic::div_mod::lemma_fundamental_div_mod;
use vstd::arithmetic::power2::lemma2_to64;
use vstd::arithmetic::power2::lemma2_to64_rest;
use vstd::arithmetic::power2::lemma_pow2_adds;
use vstd::arithmetic::power2::lemma_pow2_pos;
use vstd::arithmetic::power2::lemma_pow2_strictly_increases;
use vstd::arithmetic::power2::lemma_pow2_unfold;
use vstd::arithmetic::power2::pow2;
use vstd::bits::lemma_u64_shl_is_mul;
use crate::binary::lemma_magnitude_at;
use crate::binary::lemma_magnitude_increases;
use crate::binary::lemma_magnitude_step;
use crate::binary::magnitude;
use crate::bits::bit_length;
use crate::bits::is_bit_length;
use crate::bits::power_of_two;

verus! {

/// The magnitude of a binary32 pattern, in units of two to the power of -149.
pub open spec fn single_magnitude(abs: int) -> int {
    magnitude(abs, 0x80_0000)
}

/// `abs` is the pattern that `num / den` rounds to: the value lies between
/// the midpoint to the pattern below and the midpoint to the pattern above,
/// and on a midpoint only if `abs` is even.
pub open spec fn is_nearest(num: int, den: int, abs: int) -> bool {
    &&& 0 <= abs <= 0x7f80_0000
    &&& abs > 0 ==> {
        let twice_mid = (single_magnitude(abs - 1) + single_magnitude(abs)) * den;
        twice_mid < 2 * num || (twice_mid == 2 * num && abs % 2 == 0)
    }
    &&& abs < 0x7f80_0000 ==> {
        let twice_mid = (single_magnitude(abs) + single_magnitude(abs + 1)) * den;
        2 * num < twice_mid || (twice_mid == 2 * num && abs % 2 == 0)
    }
}

/// How far the pattern `abs` lies from `num / den`, times `den`.
pub open spec fn distance(num: int, den: int, abs: int) -> int {
    let d = single_magnitude(abs) * den - num;
    if d < 0 {
        -d
    } else {
        d
    }
}

/// A ratio rounds to one pattern only.
pub proof fn lemma_nearest_is_unique(num: int, den: int, a: int, b: int)
    requires
        0 < den,
        is_nearest(num, den, a),
        is_nearest(num, den, b),
    ensures
        a == b,
{
    lemma_nearest_not_below(num, den, a, b);
    lemma_nearest_not_below(num, den, b, a);
}

/// Of two patterns that a ratio rounds to, the second is not the larger.
proof fn lemma_nearest_not_below(num: int, den: int, a: int, b: int)
    requires
        0 < den,
        is_nearest(num, den, a),
        is_nearest(num, den, b),
    ensures
        b <= a,
{
    if a < b {
        let ma = single_magnitude(a);
        let ma1 = single_magnitude(a + 1);
        let mb0 = single_magnitude(b - 1);
        let mb = single_magnitude(b);
        lemma_magnitude_step(a, 0x80_0000);
        lemma_magnitude_step(b - 1, 0x80_0000);
        if a < b - 1 {
            lemma_magnitude_increases(a, b - 1, 0x80_0000);
            lemma_magnitude_increases(a + 1, b, 0x80_0000);
            assert((ma + ma1) * den < (mb0 + mb) * den) by (nonlinear_arith)
                requires
                    ma + ma1 < mb0 + mb,
                    0 < den,
            ;
        }
    }
}

/// No pattern lies nearer to the ratio than the one it rounds to.
pub proof fn lemma_nearest_is_closest(num: int, den: int, abs: int, other: int)
    requires
        0 < den,
        is_nearest(num, den, abs),
        0 <= other <= 0x7f80_0000,
    ensures
        distance(num, den, abs) <= distance(num, den, other),
{
    let m = single_magnitude(abs);
    let o = single_magnitude(other);
    if other < abs {
        let p = single_magnitude(abs - 1);
        lemma_magnitude_step(abs - 1, 0x80_0000);
        if other < abs - 1 {
            lemma_magnitude_increases(other, abs - 1, 0x80_0000);
        }
        assert(o * den <= p * den && p * den <= m * den && (p + m) * den == p * den + m * den)
            by (nonlinear_arith)
            requires
                o <= p <= m,
                0 < den,
        ;
    } else if abs < other {
        let s = single_magnitude(abs + 1);
        lemma_magnitude_step(abs, 0x80_0000);
        if abs + 1 < other {
            lemma_magnitude_increases(abs + 1, other, 0x80_0000);
        }
        assert(m * den <= s * den && s * den <= o * den && (m + s) * den == m * den + s * den)
            by (nonlinear_arith)
            requires
                m <= s <= o,
                0 < den,
        ;
    }
}

/// Where two patterns lie equally near, the ratio rounds to the even one.
pub proof fn lemma_nearest_breaks_ties_to_even(num: int, den: int, abs: int, other: int)
    requires
        0 < den,
        is_nearest(num, den, abs),
        0 <= other <= 0x7f80_0000,
        other != abs,
        distance(num, den, abs) == distance(num, den, other),
    ensures
        abs % 2 == 0,
{
    let m = single_magnitude(abs);
    let o = single_magnitude(other);
    if other < abs {
        let p = single_magnitude(abs - 1);
        lemma_magnitude_step(abs - 1, 0x80_0000);
        if other < abs - 1 {
            lemma_magnitude_increases(other, abs - 1, 0x80_0000);
        }
        assert(o * den <= p * den && p * den < m * den && (p + m) * den == p * den + m * den)
            by (nonlinear_arith)
            requires
                o <= p < m,
                0 < den,
        ;
    } else {
        let s = single_magnitude(abs + 1);
        lemma_magnitude_step(abs, 0x80_0000);
        if abs + 1 < other {
            lemma_magnitude_increases(abs + 1, other, 0x80_0000);
        }
        assert(m * den < s * den && s * den <= o * den && (m + s) * den == m * den + s * den)
            by (nonlinear_arith)
            requires
                m < s <= o,
                0 < den,
        ;
    }
}

/// Rounding keeps the order: a ratio at or below the magnitude of a pattern
/// rounds to that pattern or to one before it, and a ratio at or above it
/// rounds to that pattern or to one after it.
pub proof fn lemma_nearest_keeps_order(num: int, den: int, abs: int, other: int)
    requires
        0 < den,
        is_nearest(num, den, abs),
        0 <= other <= 0x7f80_0000,
    ensures
        num <= single_magnitude(other) * den ==> abs <= other,
        num >= single_magnitude(other) * den ==> abs >= other,
{
    let m = single_magnitude(abs);
    let o = single_magnitude(other);
    if other < abs {
        let p = single_magnitude(abs - 1);
        lemma_magnitude_step(abs - 1, 0x80_0000);
        if other < abs - 1 {
            lemma_magnitude_increases(other, abs - 1, 0x80_0000);
        }
        assert((p + m) * den > 2 * (o * den)) by (nonlinear_arith)
            requires
                o <= p < m,
                0 < den,
        ;
    } else if abs < other {
        let s = single_magnitude(abs + 1);
        lemma_magnitude_step(abs, 0x80_0000);
        if abs + 1 < other {
            lemma_magnitude_increases(abs + 1, other, 0x80_0000);
        }
        assert((m + s) * den < 2 * (o * den)) by (nonlinear_arith)
            requires
                m < s <= o,
                0 < den,
        ;
    }
}

/// A magnitude that a pattern has rounds to that pattern.
pub proof fn lemma_exact_is_nearest(den: int, abs: int)
    requires
        0 < den,
        0 <= abs <= 0x7f80_0000,
    ensures
        is_nearest(single_magnitude(abs) * den, den, abs),
{
    let m = single_magnitude(abs);
    lemma_magnitude_step(abs, 0x80_0000);
    let s = single_magnitude(abs + 1);
    assert((m + s) * den > 2 * (m * den)) by (nonlinear_arith)
        requires
            m < s,
            0 < den,
    ;
    if abs > 0 {
        lemma_magnitude_step(abs - 1, 0x80_0000);
        let p = single_magnitude(abs - 1);
        assert((p + m) * den < 2 * (m * den)) by (nonlinear_arith)
            requires
                p < m,
                0 < den,
        ;
    }
}

/// Rounding does not depend on how the ratio is written.
pub proof fn lemma_nearest_scales(num: int, den: int, factor: int, abs: int)
    requires
        0 < factor,
    ensures
        is_nearest(num * factor, den * factor, abs) == is_nearest(num, den, abs),
{
    if 0 <= abs <= 0x7f80_0000 {
        let lo = single_magnitude(abs - 1) + single_magnitude(abs);
        let hi = single_magnitude(abs) + single_magnitude(abs + 1);
        lemma_scaled_order(lo * den, 2 * num, factor);
        lemma_scaled_order(2 * num, hi * den, factor);
        assert(lo * (den * factor) == (lo * den) * factor) by (nonlinear_arith);
        assert(hi * (den * factor) == (hi * den) * factor) by (nonlinear_arith);
        assert(2 * (num * factor) == (2 * num) * factor) by (nonlinear_arith);
    }
}

/// Multiplying both sides by a positive factor keeps their order.
proof fn lemma_scaled_order(a: int, b: int, factor: int)
    by (nonlinear_arith)
    requires
        0 < factor,
    ensures
        (a * factor < b * factor) == (a < b),
        (a * factor == b * factor) == (a == b),
        (a * factor <= b * factor) == (a <= b),
{
}

/// One rounding step. The ratio lies in the interval that starts at the
/// significand `m` with quantum exponent `g` and is one quantum long; `up`
/// says that it lies past the middle of the interval, or on it with `m` odd.
/// Then it rounds to the pattern of `m` and `g`, or to the pattern after it.
proof fn lemma_round_step(num: int, den: int, g: nat, m: int, up: bool)
    requires
        0 < den,
        g <= 253,
        0 <= m < 0x100_0000,
        g > 0 ==> m >= 0x80_0000,
        m * (pow2(g) * den) <= num < m * (pow2(g) * den) + pow2(g) * den,
        up == (2 * (num - m * (pow2(g) * den)) > pow2(g) * den || (2 * (num - m * (pow2(g) * den))
            == pow2(g) * den && m % 2 == 1)),
    ensures
        is_nearest(
            num,
            den,
            g * 0x80_0000 + m + if up {
                1int
            } else {
                0int
            },
        ),
{
    let full = pow2(g) * den;
    let base = m * full;
    let abs = g * 0x80_0000 + m;
    let here = single_magnitude(abs);
    let next = single_magnitude(abs + 1);
    lemma_pow2_pos(g);
    lemma_magnitude_at(g, m, 0x80_0000);
    lemma_magnitude_at(g, m + 1, 0x80_0000);
    assert(here * den == base) by (nonlinear_arith)
        requires
            here == m * pow2(g),
            base == m * (pow2(g) * den),
    ;
    assert(next * den == base + full) by (nonlinear_arith)
        requires
            next == (m + 1) * pow2(g),
            base == m * (pow2(g) * den),
            full == pow2(g) * den,
    ;
    assert((here + next) * den == here * den + next * den) by (nonlinear_arith);
    if up {
        lemma_magnitude_step(abs + 1, 0x80_0000);
        let after = single_magnitude(abs + 2);
        assert((next + after) * den > 2 * (next * den)) by (nonlinear_arith)
            requires
                next < after,
                0 < den,
        ;
    } else if abs > 0 {
        lemma_magnitude_step(abs - 1, 0x80_0000);
        let before = single_magnitude(abs - 1);
        assert((before + here) * den < 2 * (here * den)) by (nonlinear_arith)
            requires
                before < here,
                0 < den,
        ;
    }
}

/// What a quotient and its remainder say of a ratio. The numerator `mant`,
/// shifted left by `z` bits, divided by `den` gives `q` and leaves `r`; `q`
/// shifted right by `sh` bits gives the significand `m` and drops `rho`.
/// Then `mant / den`, times two to the power of `kp - kn`, lies in the
/// interval of `m` at the quantum exponent `g`, and `rho` and `r` say where.
proof fn lemma_ratio_frame(
    mant: int,
    den: int,
    kp: nat,
    kn: nat,
    z: nat,
    q: int,
    r: int,
    sh: nat,
    g: nat,
    m: int,
    rho: int,
)
    requires
        0 < den,
        mant * pow2(z) == q * den + r,
        0 <= r < den,
        q == m * pow2(sh) + rho,
        0 <= rho < pow2(sh),
        g + z + kn == sh + kp,
        sh >= 1,
    ensures
        ({
            let num = mant * pow2(kp);
            let full = pow2(g) * (den * pow2(kn));
            let base = m * full;
            let half = pow2((sh - 1) as nat);
            &&& base <= num < base + full
            &&& (2 * (num - base) > full) == (rho > half || (rho == half && r > 0))
            &&& (2 * (num - base) == full) == (rho == half && r == 0)
        }),
{
    let num = mant * pow2(kp);
    let full = pow2(g) * (den * pow2(kn));
    let base = m * full;
    let half = pow2((sh - 1) as nat) as int;
    let s = pow2(sh) as int;
    let zz = pow2(z) as int;
    let pp = pow2(kp) as int;
    let w = rho * den + r;
    lemma_pow2_pos(z);
    lemma_pow2_pos(kp);
    lemma_pow2_unfold(sh);
    assert(pow2(g) * pow2(kn) * pow2(z) == pow2(sh) * pow2(kp)) by {
        lemma_pow2_adds(g, kn);
        lemma_pow2_adds(g + kn, z);
        lemma_pow2_adds(sh, kp);
    }
    let gkz = pow2(g) * pow2(kn) * pow2(z);
    assert(full * zz == den * (s * pp)) by (nonlinear_arith)
        requires
            full == pow2(g) * (den * pow2(kn)),
            zz == pow2(z),
            pow2(g) * pow2(kn) * pow2(z) == s * pp,
    ;
    assert(num * zz == (q * den + r) * pp) by (nonlinear_arith)
        requires
            num == mant * pp,
            mant * zz == q * den + r,
    ;
    let msd = m * s * den;
    assert(q * den + r == msd + w) by (nonlinear_arith)
        requires
            q == m * s + rho,
            w == rho * den + r,
            msd == m * s * den,
    ;
    assert((msd + w) * pp == msd * pp + w * pp) by (nonlinear_arith);
    assert(msd * pp == m * (den * (s * pp))) by (nonlinear_arith)
        requires
            msd == m * s * den,
    ;
    assert(base * zz == m * (full * zz)) by (nonlinear_arith)
        requires
            base == m * full,
    ;
    assert((num - base) * zz == num * zz - base * zz) by (nonlinear_arith);
    assert((num - base) * zz == w * pp);
    assert(full * zz == (den * s) * pp) by (nonlinear_arith)
        requires
            full * zz == den * (s * pp),
    ;
    // compare on the common scale, then drop the scale
    lemma_scaled_order(0, num - base, zz);
    lemma_scaled_order(num - base, full, zz);
    lemma_scaled_order(2 * (num - base), full, zz);
    lemma_scaled_order(0, w, pp);
    lemma_scaled_order(w, den * s, pp);
    lemma_scaled_order(2 * w, den * s, pp);
    assert((2 * (num - base)) * zz == (2 * w) * pp) by (nonlinear_arith)
        requires
            (num - base) * zz == w * pp,
    ;
    assert(0 * zz == 0 && 0 * pp == 0);
    assert(0 <= w < den * s) by (nonlinear_arith)
        requires
            w == rho * den + r,
            0 <= rho < s,
            0 <= r < den,
    ;
    assert(((2 * w > den * s) == (rho > half || (rho == half && r > 0))) && ((2 * w == den * s) == (
    rho == half && r == 0))) by (nonlinear_arith)
        requires
            w == rho * den + r,
            s == 2 * half,
            0 <= r < den,
    ;
}

/// The part of the exponent `k` that shifts up.
pub open spec fn shift_up(k: int) -> nat {
    if k >= 0 {
        k as nat
    } else {
        0
    }
}

/// The part of the exponent `k` that shifts down.
pub open spec fn shift_down(k: int) -> nat {
    if k < 0 {
        (-k) as nat
    } else {
        0
    }
}

/// Zero rounds to zero.
pub proof fn lemma_zero_is_nearest(den: int)
    requires
        0 < den,
    ensures
        is_nearest(0, den, 0),
{
    lemma_magnitude_step(0, 0x80_0000);
    let sum = single_magnitude(0) + single_magnitude(1);
    assert(sum * den > 0) by (nonlinear_arith)
        requires
            sum > 0,
            den > 0,
    ;
}

/// A ratio at or above two to the power of 128 rounds to infinity.
pub proof fn lemma_overflow_is_nearest(num: int, den: int, g: nat, m: int)
    requires
        0 < den,
        g >= 254,
        m >= 0x80_0000,
        m * (pow2(g) * den) <= num,
    ensures
        is_nearest(num, den, 0x7f80_0000),
{
    let top = single_magnitude(0x7f80_0000);
    let below = single_magnitude(0x7f80_0000 - 1);
    lemma_magnitude_at(254, 0x80_0000, 0x80_0000);
    assert(254 * 0x80_0000 + 0x80_0000 == 0x7f80_0000);
    lemma_magnitude_step(0x7f80_0000 - 1, 0x80_0000);
    if g > 254 {
        lemma_pow2_strictly_increases(254, g);
    }
    lemma_pow2_pos(254);
    assert(top * den <= m * (pow2(g) * den)) by (nonlinear_arith)
        requires
            top == 0x80_0000 * pow2(254),
            m >= 0x80_0000,
            pow2(g) >= pow2(254),
            pow2(254) > 0,
            den > 0,
    ;
    assert((below + top) * den < 2 * (top * den)) by (nonlinear_arith)
        requires
            below < top,
            0 < den,
    ;
}

/// `mant`, shifted left until its highest bit is bit 63, and the number of
/// places it was shifted by.
fn shift_to_top(mant: u64) -> (r: (u64, u32))
    requires
        mant > 0,
    ensures
        r.0 == mant * pow2(r.1 as nat),
        r.0 >= 0x8000_0000_0000_0000,
        r.1 <= 63,
{
    let z: u32 = 64 - bit_length(mant);
    proof {
        let len = (64 - z) as nat;
        lemma2_to64();
        lemma2_to64_rest();
        lemma_pow2_adds(len, z as nat);
        lemma_pow2_adds((len - 1) as nat, z as nat);
        lemma_pow2_pos(z as nat);
        assert(pow2((len - 1) as nat) * pow2(z as nat) <= mant * pow2(z as nat) < pow2(len) * pow2(
            z as nat,
        )) by (nonlinear_arith)
            requires
                pow2((len - 1) as nat) <= mant < pow2(len),
                pow2(z as nat) > 0,
        ;
        lemma_u64_shl_is_mul(mant, z as u64);
    }
    (mant << z, z)
}

/// The quotient `q` of `len` bits, shifted right by `sh` bits: what is left,
/// what is dropped, and the half of what the dropped bits could hold.
fn shift_quotient(q: u64, len: u32, sh: u32) -> (r: (u64, u64, u64))
    requires
        is_bit_length(q as int, len as nat),
        24 <= len <= sh + 24,
        len <= 64,
        1 <= sh <= 64,
    ensures
        q == r.0 * pow2(sh as nat) + r.1,
        r.1 < pow2(sh as nat),
        r.0 < 0x100_0000,
        len == sh + 24 ==> r.0 >= 0x80_0000,
        r.2 == pow2((sh - 1) as nat),
{
    if sh == 64 {
        proof {
            lemma2_to64();
            assert(0 * pow2(sh as nat) == 0);
        }
        (0, q, power_of_two(63))
    } else {
        let p = power_of_two(sh);
        proof {
            lemma_significand_bounds(
                q as int,
                len as nat,
                sh as nat,
                q as int / p as int,
                q as int % p as int,
            );
        }
        (q / p, q % p, power_of_two(sh - 1))
    }
}

/// The pattern of the binary32 magnitude nearest to `mant / den` times two
/// to the power of `k`, in units of two to the power of -149, ties to even.
pub(crate) fn round_ratio(mant: u64, den: u32, k: i32) -> (abs: u32)
    requires
        den > 0,
    ensures
        is_nearest(
            mant * pow2(shift_up(k as int)),
            den * pow2(shift_down(k as int)),
            abs as int,
        ),
{
    let ghost kp = shift_up(k as int);
    let ghost kn = shift_down(k as int);
    let ghost num = mant * pow2(kp);
    let ghost dd = den * pow2(kn);
    proof {
        lemma_pow2_pos(kn);
        assert(dd > 0) by (nonlinear_arith)
            requires
                dd == den * pow2(kn),
                den > 0,
                pow2(kn) > 0,
        ;
    }
    if mant == 0 {
        proof {
            assert(num == 0) by (nonlinear_arith)
                requires
                    num == mant * pow2(kp),
                    mant == 0,
            ;
            lemma_zero_is_nearest(dd);
        }
        return 0;
    }
    let (a, z) = shift_to_top(mant);
    let d: u64 = den as u64;
    let q: u64 = a / d;
    let r: u64 = a % d;
    proof {
        lemma_fundamental_div_mod(a as int, d as int);
        assert(q >= 0x8000_0000) by (nonlinear_arith)
            requires
                a == d * q + r,
                r < d,
                d <= 0xffff_ffff,
                a >= 0x8000_0000_0000_0000,
        ;
        assert(d * q == q * den) by (nonlinear_arith)
            requires
                d == den,
        ;
    }
    let len: u32 = bit_length(q);
    proof {
        lemma2_to64();
        if len < 32 {
            lemma_pow2_strictly_increases(len as nat, 32);
        }
    }
    let e0: i64 = k as i64 - z as i64;
    let g_raw: i64 = e0 + len as i64 - 24;
    if g_raw >= 254 {
        proof {
            let sh = (len - 24) as nat;
            let m = q as int / pow2(sh) as int;
            let rho = q as int % pow2(sh) as int;
            lemma_significand_bounds(q as int, len as nat, sh, m, rho);
            lemma_ratio_frame(
                mant as int,
                den as int,
                kp,
                kn,
                z as nat,
                q as int,
                r as int,
                sh,
                g_raw as nat,
                m,
                rho,
            );
            lemma_overflow_is_nearest(num, dd, g_raw as nat, m);
        }
        return 0x7f80_0000;
    }
    let g: u32 = if g_raw < 0 {
        0
    } else {
        g_raw as u32
    };
    let sh: i64 = g as i64 - e0;
    if sh > 64 {
        // Less than half of the smallest subnormal.
        proof {
            lemma2_to64();
            if sh > 65 {
                lemma_pow2_strictly_increases(64, (sh - 1) as nat);
            }
            lemma_pow2_strictly_increases(64, sh as nat);
            assert(0 * pow2(sh as nat) == 0);
            lemma_ratio_frame(
                mant as int,
                den as int,
                kp,
                kn,
                z as nat,
                q as int,
                r as int,
                sh as nat,
                0,
                0,
                q as int,
            );
            lemma_round_step(num, dd, 0, 0, false);
        }
        return 0;
    }
    let (m, rho, half) = shift_quotient(q, len, sh as u32);
    let up = rho > half || (rho == half && (r > 0 || m % 2 == 1));
    proof {
        lemma_ratio_frame(
            mant as int,
            den as int,
            kp,
            kn,
            z as nat,
            q as int,
            r as int,
            sh as nat,
            g as nat,
            m as int,
            rho as int,
        );
        lemma_round_step(num, dd, g as nat, m as int, up);
    }
    let abs: u32 = g * 0x80_0000 + (m as u32);
    if up {
        abs + 1
    } else {
        abs
    }
}

/// The quotient `q` of `len` bits, shifted right by `sh` bits where that
/// leaves at most 24 of them, gives a significand below two to the power of
/// 24; where it leaves exactly 24, the significand has its highest bit set.
proof fn lemma_significand_bounds(q: int, len: nat, sh: nat, m: int, rho: int)
    requires
        is_bit_length(q, len),
        0 <= q,
        24 <= len <= sh + 24,
        m == q / pow2(sh) as int,
        rho == q % pow2(sh) as int,
    ensures
        q == m * pow2(sh) + rho,
        0 <= rho < pow2(sh),
        0 <= m < 0x100_0000,
        len == sh + 24 ==> m >= 0x80_0000,
{
    let p = pow2(sh) as int;
    lemma_pow2_pos(sh);
    lemma2_to64();
    lemma_fundamental_div_mod(q, p);
    lemma_pow2_adds(sh, 24);
    if len < sh + 24 {
        lemma_pow2_strictly_increases(len, sh + 24);
    }
    assert(0 <= m < 0x100_0000) by (nonlinear_arith)
        requires
            q == p * m + rho,
            0 <= rho < p,
            0 <= q < p * 0x100_0000,
    ;
    if len == sh + 24 {
        lemma_pow2_adds(sh, 23);
        assert(m >= 0x80_0000) by (nonlinear_arith)
            requires
                q == p * m + rho,
                0 <= rho < p,
                q >= p * 0x80_0000,
        ;
    }
    assert(p * m == m * p) by (nonlinear_arith);
}

} // verus!
