//! Word-level helpers: the length of an integer in bits, and powers of two
//! as machine words.

use vstd::prelude::*;
use vstd::arithmetic::div_mod::lemma_basic_div;
use vstd::arithmetic::div_mod::lemma_div_non_zero;
use vstd::arithmetic::power2::lemma2_to64;
use vstd::arithmetic::power2::lemma_pow2_pos;
use vstd::arithmetic::power2::pow2;
use vstd::bits::lemma_u64_shl_is_mul;
use vstd::bits::lemma_u64_shr_is_div;
use vstd::std_specs::bits::axiom_u64_leading_zeros;

verus! {

/// `len` is the number of bits that `x` takes: none for zero, else the
/// position of its highest set bit, counted from one.
pub open spec fn is_bit_length(x: int, len: nat) -> bool {
    &&& x < pow2(len)
    &&& len > 0 ==> pow2((len - 1) as nat) <= x
}

/// The number of bits that `x` takes.
pub fn bit_length(x: u64) -> (len: u32)
    ensures
        len <= 64,
        is_bit_length(x as int, len as nat),
        (len == 0) == (x == 0),
{
    let zeros = x.leading_zeros();
    proof {
        axiom_u64_leading_zeros(x);
        lemma2_to64();
        let lz = zeros as u64;
        let len = (64 - zeros) as u64;
        if len < 64 {
            assert(x >> len == 0);
            lemma_u64_shr_is_div(x, len);
            lemma_pow2_pos(len as nat);
            if x >= pow2(len as nat) {
                lemma_div_non_zero(x as int, pow2(len as nat) as int);
            }
        }
        if len > 0 {
            let top = (len - 1) as u64;
            let y = x >> top;
            assert(y & 1 != 0);
            assert(y != 0) by (bit_vector)
                requires
                    y & 1 != 0,
            ;
            lemma_u64_shr_is_div(x, top);
            lemma_pow2_pos(top as nat);
            if x < pow2(top as nat) {
                lemma_basic_div(x as int, pow2(top as nat) as int);
            }
        }
    }
    64 - zeros
}

/// Two to the power of `n`, for `n` below 64.
pub fn power_of_two(n: u32) -> (p: u64)
    requires
        n < 64,
    ensures
        p == pow2(n as nat),
{
    proof {
        vstd::bits::lemma_u64_pow2_no_overflow(n as nat);
        lemma_u64_shl_is_mul(1, n as u64);
    }
    1u64 << n
}

} // verus!
