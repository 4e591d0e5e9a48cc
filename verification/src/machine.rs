//! What the machine's bit operations on `u64` mean for polynomials over GF(2),
//! and the few primitives that the arithmetic takes from `num`.

use crate::poly::{lemma_add_unfold, poly_add, poly_deg};
use vstd::arithmetic::power2::{lemma_pow2_pos, lemma_pow2_unfold, pow2};
use vstd::prelude::*;

verus! {

/// The additive identity of `u64`, from `num::Zero::zero`: the number 0.
#[verifier::external_body]
pub(crate) fn zero() -> (r: u64)
    ensures
        r == 0,
{
    num::Zero::zero()
}

/// The multiplicative identity of `u64`, from `num::One::one`: the number 1.
#[verifier::external_body]
pub(crate) fn one() -> (r: u64)
    ensures
        r == 1,
{
    num::One::one()
}

/// `num_traits::PrimInt::leading_zeros` on `u64`: how many zero bits stand
/// above the highest set bit of `x`. That is 64 for 0; for any other `x` the
/// highest set bit has index `63 - r`.
#[verifier::external_body]
pub(crate) fn leading_zeros(x: u64) -> (r: u32)
    ensures
        r <= 64,
        x == 0 <==> r == 64,
        x != 0 ==> pow2((63 - r) as nat) <= x < 2 * pow2((63 - r) as nat),
{
    num_traits::PrimInt::leading_zeros(x)
}

/// For `x != 0`, the count of leading zeros and the degree add up to 63.
pub proof fn lemma_leading_zeros_deg(x: u64, r: u32)
    requires
        x != 0,
        r < 64,
        pow2((63 - r) as nat) <= x < 2 * pow2((63 - r) as nat),
    ensures
        poly_deg(x as nat) == 63 - r,
{
    crate::poly::lemma_deg_unique(x as nat, (63 - r) as nat);
}

/// `2^n` for `n < 64` fits in a `u64`.
pub proof fn lemma_pow2_fits(n: nat)
    requires
        n < 64,
    ensures
        0 < pow2(n) <= 0x8000_0000_0000_0000,
        n < 63 ==> 2 * pow2(n) <= 0x8000_0000_0000_0000,
{
    vstd::arithmetic::power2::lemma2_to64();
    vstd::arithmetic::power2::lemma2_to64_rest();
    lemma_pow2_pos(n);
    if n < 63 {
        vstd::arithmetic::power2::lemma_pow2_strictly_increases(n, 63);
        lemma_pow2_unfold(n + 1);
        if n + 1 < 63 {
            vstd::arithmetic::power2::lemma_pow2_strictly_increases(n + 1, 63);
        }
    }
}

/// Powers of two are ordered as their exponents.
pub proof fn lemma_pow2_le(m: nat, n: nat)
    requires
        m <= n,
    ensures
        pow2(m) <= pow2(n),
{
    if m < n {
        vstd::arithmetic::power2::lemma_pow2_strictly_increases(m, n);
    }
}

/// The bit with index `n`.
pub(crate) fn bit_at(n: u32) -> (r: u64)
    requires
        n < 64,
    ensures
        r == pow2(n as nat),
{
    proof {
        lemma_pow2_fits(n as nat);
        assert(1 * pow2(n as nat) == pow2(n as nat)) by (nonlinear_arith);
        vstd::bits::lemma_u64_shl_is_mul(1, n as u64);
    }
    1u64 << (n as u64)
}

/// The `n` lowest bits.
pub(crate) fn low_mask(n: u32) -> (r: u64)
    requires
        n < 64,
    ensures
        r == pow2(n as nat) - 1,
{
    let b = bit_at(n);
    proof {
        lemma_pow2_pos(n as nat);
    }
    b - 1
}

proof fn lemma_xor_halves(a: u64, b: u64)
    by (bit_vector)
    ensures
        (a ^ b) / 2 == (a / 2) ^ (b / 2),
        (a ^ b) % 2 == ((a % 2) + (b % 2)) % 2,
{
}

/// Exclusive or is addition of polynomials.
pub proof fn lemma_xor(a: u64, b: u64)
    ensures
        (a ^ b) as nat == poly_add(a as nat, b as nat),
    decreases a + b,
{
    lemma_xor_halves(a, b);
    if a != 0 || b != 0 {
        lemma_xor(a / 2, b / 2);
        lemma_add_unfold(a as nat, b as nat);
    } else {
        assert(0u64 ^ 0u64 == 0u64) by (bit_vector);
    }
}

/// Doubling by a shift, where the top bit is clear.
pub proof fn lemma_shl_one(a: u64)
    requires
        a < 0x8000_0000_0000_0000,
    ensures
        a << 1u64 == 2 * a,
{
    assert(a < 0x8000_0000_0000_0000 ==> a << 1u64 == 2 * a) by (bit_vector);
}

/// Halving by a shift.
pub proof fn lemma_shr_one(a: u64)
    ensures
        a >> 1u64 == a / 2,
{
    assert(a >> 1u64 == a / 2) by (bit_vector);
}

/// A shift to the left multiplies by a power of two, where nothing is lost.
pub proof fn lemma_shl(a: u64, n: u64)
    requires
        n < 64,
        a * pow2(n as nat) <= u64::MAX,
    ensures
        a << n == a * pow2(n as nat),
{
    vstd::bits::lemma_u64_shl_is_mul(a, n);
}

/// Masking with the `n` lowest bits is the remainder modulo `2^n`.
pub proof fn lemma_and_low_mask(a: u64, n: nat)
    requires
        n < 64,
    ensures
        a & ((pow2(n) - 1) as u64) == a as nat % pow2(n),
{
    lemma_pow2_fits(n);
    vstd::bits::lemma_u64_low_bits_mask_is_mod(a, n);
}

proof fn lemma_and_bit_shift(a: u64, n: u64)
    by (bit_vector)
    requires
        n < 64,
    ensures
        (a & (1u64 << n)) != 0 <==> (a >> n) % 2 == 1,
{
}

/// Masking with a single bit tests a binary digit.
pub proof fn lemma_and_bit(a: u64, n: nat)
    requires
        n < 64,
    ensures
        (a & (pow2(n) as u64)) != 0 <==> (a as nat / pow2(n)) % 2 == 1,
{
    lemma_pow2_fits(n);
    assert(1 * pow2(n) == pow2(n)) by (nonlinear_arith);
    vstd::bits::lemma_u64_shl_is_mul(1, n as u64);
    vstd::bits::lemma_u64_shr_is_div(a, n as u64);
    lemma_and_bit_shift(a, n as u64);
}

/// Masking with the top bit of a number below `2^(n+1)` tells whether it
/// reaches `2^n`.
pub proof fn lemma_and_top_bit(a: u64, n: nat)
    requires
        n < 64,
        a < 2 * pow2(n),
    ensures
        (a & (pow2(n) as u64)) != 0 <==> a >= pow2(n),
{
    lemma_and_bit(a, n);
    lemma_pow2_pos(n);
    let t = pow2(n) as int;
    let q = a as int / t;
    assert(a as int == t * q + a as int % t) by {
        vstd::arithmetic::div_mod::lemma_fundamental_div_mod(a as int, t);
    }
    assert(0 <= a as int % t < t) by {
        vstd::arithmetic::div_mod::lemma_mod_bound(a as int, t);
    }
    assert(q == 0 || q == 1) by (nonlinear_arith)
        requires
            a as int == t * q + a as int % t,
            0 <= a as int % t < t,
            0 <= a < 2 * t,
            t > 0,
    ;
    assert(q == 1 <==> a >= t) by (nonlinear_arith)
        requires
            a as int == t * q + a as int % t,
            0 <= a as int % t < t,
            q == 0 || q == 1,
    ;
}

/// The binary digit with index `n` splits off the remainder modulo `2^(n+1)`.
pub proof fn lemma_mod_pow2_step(b: nat, n: nat)
    ensures
        b % pow2(n + 1) == b % pow2(n) + pow2(n) * ((b / pow2(n)) % 2),
        b % pow2(n) < pow2(n),
{
    lemma_pow2_pos(n);
    lemma_pow2_unfold(n + 1);
    let t = pow2(n) as int;
    vstd::arithmetic::div_mod::lemma_mod_bound(b as int, t);
    vstd::arithmetic::div_mod::lemma_mod_breakdown(b as int, t, 2);
    assert(t * 2 == 2 * t);
}

} // verus!
