//! Integer facts about shifts and rounding used by the fixed-point kernels.
use vstd::prelude::*;
use vstd::arithmetic::power2::{pow2, lemma_pow2_pos};
use vstd::arithmetic::div_mod::{lemma_fundamental_div_mod, lemma_fundamental_div_mod_converse};
use vstd::bits::{lemma_u64_shr_is_div, lemma_u64_shl_is_mul, lemma_u64_pow2_no_overflow};

verus! {

/// `floor(x / 2^b)` for a signed value `x`.
pub open spec fn floor_shift(x: int, b: nat) -> int {
    x / (pow2(b) as int)
}

/// Arithmetic right shift of an `i64` is floor division by a power of two.
pub proof fn lemma_i64_shr_is_floor_div(x: i64, b: u8)
    requires
        b < 63,
    ensures
        (x >> b) as int == floor_shift(x as int, b as nat),
{
    lemma_pow2_pos(b as nat);
    let d = pow2(b as nat) as int;
    if x >= 0 {
        assert((x >> b) as u64 == (x as u64) >> (b as u64)) by (bit_vector)
            requires
                x >= 0,
                b < 63,
        ;
        assert((x >> b) >= 0) by (bit_vector)
            requires
                x >= 0,
                b < 63,
        ;
        lemma_u64_shr_is_div(x as u64, b as u64);
    } else {
        let y: i64 = !x;
        assert(!x == -1 - x) by (bit_vector);
        assert(y >= 0);
        assert(x >> b == !(y >> b)) by (bit_vector)
            requires
                y == !x,
                b < 63,
        ;
        assert((y >> b) as u64 == (y as u64) >> (b as u64)) by (bit_vector)
            requires
                y >= 0,
                b < 63,
        ;
        assert((y >> b) >= 0) by (bit_vector)
            requires
                y >= 0,
                b < 63,
        ;
        lemma_u64_shr_is_div(y as u64, b as u64);
        let z: i64 = y >> b;
        assert(!z == -1 - z) by (bit_vector);
        let q = (y as int) / d;
        let r = (y as int) % d;
        lemma_fundamental_div_mod(y as int, d);
        assert(x as int == (-q - 1) * d + (d - r - 1)) by (nonlinear_arith)
            requires
                y as int == d * q + r,
                x as int == -1 - y as int,
        ;
        lemma_fundamental_div_mod_converse(x as int, d, -q - 1, d - r - 1);
    }
}

/// `1 << k` in an `i64` is `2^k`.
pub proof fn lemma_i64_one_shl(k: u8)
    requires
        k < 62,
    ensures
        (1i64 << k) as int == pow2(k as nat),
{
    assert((1i64 << k) as u64 == (1u64 << (k as u64))) by (bit_vector)
        requires
            k < 62,
    ;
    assert((1i64 << k) >= 0) by (bit_vector)
        requires
            k < 62,
    ;
    lemma_u64_pow2_no_overflow(k as nat);
    lemma_u64_shl_is_mul(1u64, k as u64);
}

/// `1 << k` in an `i32` is `2^k`.
pub proof fn lemma_i32_one_shl(k: u8)
    requires
        k < 31,
    ensures
        (1i32 << k) as int == pow2(k as nat),
{
    assert((1i32 << k) as u64 == (1u64 << (k as u64))) by (bit_vector)
        requires
            k < 31,
    ;
    assert((1i32 << k) >= 0) by (bit_vector)
        requires
            k < 31,
    ;
    lemma_u64_pow2_no_overflow(k as nat);
    lemma_u64_shl_is_mul(1u64, k as u64);
}

} // verus!
