//! The value behind the bit pattern of a binary floating-point format.
//!
//! A pattern is taken without its sign bit, as an integer `abs`. The format is
//! given by `radix`, the number of values that its fraction field can hold
//! (two to the power of the field's width), so that `abs / radix` is the
//! exponent field and `abs % radix` the fraction field. A magnitude is counted
//! in units of the format's smallest subnormal number, which makes it an
//! integer for every pattern. The pattern of infinity counts as the power of
//! two that follows the largest finite number.

use vstd::prelude::*;
use vstd::arithmetic::div_mod::lemma_fundamental_div_mod;
use vstd::arithmetic::div_mod::lemma_fundamental_div_mod_converse;
use vstd::arithmetic::power2::lemma_pow2_pos;
use vstd::arithmetic::power2::lemma_pow2_unfold;
use vstd::arithmetic::power2::pow2;

verus! {

/// The significand: the fraction field, with the hidden bit in front of it
/// unless the exponent field is zero.
pub open spec fn significand(abs: int, radix: int) -> int {
    if abs / radix == 0 {
        abs % radix
    } else {
        radix + abs % radix
    }
}

/// The power of two that one step of the significand is worth.
pub open spec fn quantum(abs: int, radix: int) -> nat {
    if abs / radix == 0 {
        0
    } else {
        (abs / radix - 1) as nat
    }
}

/// The magnitude of the pattern, in units of the smallest subnormal.
pub open spec fn magnitude(abs: int, radix: int) -> int {
    significand(abs, radix) * pow2(quantum(abs, radix))
}

/// A pattern is its quantum exponent times the radix, plus its significand.
pub proof fn lemma_pattern_split(abs: int, radix: int)
    requires
        0 <= abs,
        0 < radix,
    ensures
        abs == quantum(abs, radix) * radix + significand(abs, radix),
        0 <= significand(abs, radix) < 2 * radix,
        quantum(abs, radix) > 0 ==> significand(abs, radix) >= radix,
        abs >= radix ==> significand(abs, radix) >= radix,
{
    lemma_fundamental_div_mod(abs, radix);
    let e = abs / radix;
    let f = abs % radix;
    assert(0 <= f < radix);
    assert(e >= 0) by (nonlinear_arith)
        requires
            abs == radix * e + f,
            0 <= abs,
            0 < radix,
            f < radix,
    ;
    if e != 0 {
        assert((e - 1) * radix + radix == radix * e) by (nonlinear_arith);
    } else {
        assert(radix * e == 0) by (nonlinear_arith)
            requires
                e == 0,
        ;
    }
}

/// The magnitude of the pattern made of a quantum exponent `g` and a
/// significand `m`; `m` may be twice the radix, which carries into the next
/// exponent.
pub proof fn lemma_magnitude_at(g: nat, m: int, radix: int)
    requires
        0 < radix,
        0 <= m <= 2 * radix,
        g > 0 ==> m >= radix,
    ensures
        magnitude(g * radix + m, radix) == m * pow2(g),
{
    let abs = g * radix + m;
    if m < radix {
        assert(g * radix == 0) by (nonlinear_arith)
            requires
                g == 0,
        ;
        lemma_fundamental_div_mod_converse(abs, radix, 0, m);
    } else if m < 2 * radix {
        assert(abs == (g + 1) * radix + (m - radix)) by (nonlinear_arith)
            requires
                abs == g * radix + m,
        ;
        lemma_fundamental_div_mod_converse(abs, radix, g as int + 1, m - radix);
    } else {
        assert(abs == (g + 2) * radix + 0) by (nonlinear_arith)
            requires
                abs == g * radix + m,
                m == 2 * radix,
        ;
        lemma_fundamental_div_mod_converse(abs, radix, g as int + 2, 0);
        lemma_pow2_unfold(g + 1);
        assert(radix * (2 * pow2(g)) == (2 * radix) * pow2(g)) by (nonlinear_arith);
    }
}

/// The next pattern lies one quantum further from zero.
pub proof fn lemma_magnitude_step(abs: int, radix: int)
    requires
        0 <= abs,
        0 < radix,
    ensures
        magnitude(abs + 1, radix) == magnitude(abs, radix) + pow2(quantum(abs, radix)),
        magnitude(abs, radix) < magnitude(abs + 1, radix),
        0 <= magnitude(abs, radix),
{
    let g = quantum(abs, radix);
    let m = significand(abs, radix);
    lemma_pattern_split(abs, radix);
    lemma_magnitude_at(g, m + 1, radix);
    lemma_pow2_pos(g);
    assert((m + 1) * pow2(g) == m * pow2(g) + pow2(g)) by (nonlinear_arith);
    assert(0 <= m * pow2(g)) by (nonlinear_arith)
        requires
            0 <= m,
            0 < pow2(g),
    ;
}

/// One quantum is small beside the magnitude: above the first two exponents
/// the magnitude holds at least `radix` of them.
pub proof fn lemma_quantum_is_small(abs: int, radix: int)
    requires
        0 <= abs,
        0 < radix,
    ensures
        quantum(abs, radix) == 0 ==> pow2(quantum(abs, radix)) == 1,
        quantum(abs, radix) > 0 ==> radix * pow2(quantum(abs, radix)) <= magnitude(abs, radix),
{
    let g = quantum(abs, radix);
    let m = significand(abs, radix);
    lemma_pattern_split(abs, radix);
    lemma_pow2_pos(g);
    if g == 0 {
        assert(pow2(0) == 1) by {
            vstd::arithmetic::power2::lemma2_to64();
        }
    } else {
        assert(radix * pow2(g) <= m * pow2(g)) by (nonlinear_arith)
            requires
                radix <= m,
                0 < pow2(g),
        ;
    }
}

/// Patterns are ordered as their magnitudes are.
pub proof fn lemma_magnitude_increases(a: int, b: int, radix: int)
    requires
        0 <= a < b,
        0 < radix,
    ensures
        magnitude(a, radix) < magnitude(b, radix),
    decreases b - a,
{
    lemma_magnitude_step(b - 1, radix);
    if a < b - 1 {
        lemma_magnitude_increases(a, b - 1, radix);
    }
}

/// Two patterns of the same magnitude are the same pattern.
pub proof fn lemma_magnitude_injective(a: int, b: int, radix: int)
    requires
        0 <= a,
        0 <= b,
        0 < radix,
        magnitude(a, radix) == magnitude(b, radix),
    ensures
        a == b,
{
    if a < b {
        lemma_magnitude_increases(a, b, radix);
    } else if b < a {
        lemma_magnitude_increases(b, a, radix);
    }
}

} // verus!
