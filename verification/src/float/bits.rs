//! Shifts and bit lengths of `u128`, in terms of powers of two.

use vstd::arithmetic::div_mod::*;
use vstd::arithmetic::mul::*;
use vstd::arithmetic::power2::*;
use vstd::bits::*;
use vstd::prelude::*;
use vstd::std_specs::bits::*;

verus! {

#[verifier::rlimit(40)]
proof fn lemma_shl(x: u128, k: u128)
    requires
        k < 128,
        x * pow2(k as nat) <= u128::MAX,
    ensures
        (x << k) == x * pow2(k as nat),
    decreases k,
{
    if k == 0 {
        lemma2_to64();
        assert(x << 0 == x) by (bit_vector);
    } else {
        let j = (k - 1) as u128;
        lemma_pow2_unfold(k as nat);
        let p = pow2(j as nat);
        assert(x * (2 * p) == 2 * (x * p)) by (nonlinear_arith);
        assert(x * p >= 0) by (nonlinear_arith);
        lemma_shl(x, j);
        let y = x << j;
        assert(x << k == y + y) by (bit_vector)
            requires
                y == x << j,
                k == j + 1,
                j < 127,
                y <= 0x7FFF_FFFF_FFFF_FFFF_FFFF_FFFF_FFFF_FFFFu128,
        ;
    }
}

/// `x * 2^k`.
pub fn shift_left(x: u128, k: u32) -> (r: u128)
    requires
        k < 128,
        x * pow2(k as nat) <= u128::MAX,
    ensures
        r == x * pow2(k as nat),
{
    proof {
        lemma_shl(x, k as u128);
    }
    x << (k as u128)
}

/// `x / 2^k`, rounded down.
pub fn shift_right(x: u128, k: u32) -> (r: u128)
    requires
        k < 128,
    ensures
        r == x as nat / pow2(k as nat),
        r * pow2(k as nat) <= x,
        x < (r + 1) * pow2(k as nat),
{
    proof {
        lemma_u128_shr_is_div(x, k as u128);
        let p = pow2(k as nat);
        lemma_pow2_pos(k as nat);
        lemma_fundamental_div_mod(x as int, p as int);
        lemma_mod_bound(x as int, p as int);
        let q = x as nat / p;
        assert(p * q == q * p && (q + 1) * p == q * p + p) by (nonlinear_arith);
    }
    x >> (k as u128)
}

fn bit_len_64(x: u64) -> (len: u32)
    requires
        x > 0,
    ensures
        1 <= len <= 64,
        pow2((len - 1) as nat) <= x,
        x < pow2(len as nat),
{
    let z: u32 = x.leading_zeros();
    proof {
        axiom_u64_leading_zeros(x);
        let k = (63 - z) as u64;
        lemma_u64_shr_is_div(x, k);
        let p = pow2(k as nat);
        lemma_pow2_pos(k as nat);
        lemma_pow2_unfold((k + 1) as nat);
        assert(x >> k != 0) by (bit_vector)
            requires
                (x >> k) & 1u64 != 0,
        ;
        assert(x >> k < 2) by {
            if z == 0 {
                assert(x >> 63u64 < 2) by (bit_vector);
            } else {
                let k1 = (64 - z) as u64;
                assert(x >> k < 2) by (bit_vector)
                    requires
                        x >> k1 == 0,
                        k1 == k + 1,
                        k < 63,
                ;
            }
        }
        lemma_fundamental_div_mod(x as int, p as int);
        lemma_mod_bound(x as int, p as int);
        assert(x as nat / p == 1);
        assert(p * 1 == p) by (nonlinear_arith);
    }
    64 - z
}

/// The number of bits of a positive number.
pub fn bit_len(x: u128) -> (len: u32)
    requires
        x > 0,
    ensures
        1 <= len <= 128,
        pow2((len - 1) as nat) <= x,
        x < pow2(len as nat),
{
    let high: u128 = shift_right(x, 64);
    proof {
        lemma2_to64();
        lemma2_to64_rest();
        assert(pow2(64) == 0x1_0000_0000_0000_0000) by {
            lemma_pow2_unfold(64);
        }
    }
    if high == 0 {
        bit_len_64(x as u64)
    } else {
        let n: u32 = bit_len_64(high as u64);
        proof {
            lemma_pow2_adds((n - 1) as nat, 64);
            lemma_pow2_adds(n as nat, 64);
            let p = pow2((n - 1) as nat);
            let r = pow2(n as nat);
            let w = pow2(64);
            assert(p * w <= high * w) by (nonlinear_arith)
                requires
                    p <= high,
            ;
            assert((high + 1) * w <= r * w) by (nonlinear_arith)
                requires
                    high + 1 <= r,
            ;
        }
        n + 64
    }
}

} // verus!
