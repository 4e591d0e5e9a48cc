//! The bit-serial arithmetic of GF(2^k), on `u64` with the field's order `k`
//! as an argument: one shift and one exclusive or per bit. These functions fix
//! what every other implementation in the crate has to compute.

use crate::euclid::{inv_state, lemma_inv_found, lemma_inv_none, lemma_inv_step};
use crate::gf::{gf_inv, gf_mul, is_modulus, is_unit, lemma_modulus};
use crate::machine::{
    bit_at, leading_zeros, lemma_and_bit, lemma_and_low_mask, lemma_and_top_bit,
    lemma_leading_zeros_deg, lemma_mod_pow2_step, lemma_pow2_fits, lemma_pow2_le, lemma_shl,
    lemma_shl_one, lemma_shr_one, lemma_xor, low_mask, one, zero,
};
use crate::poly::{
    lemma_add_disjoint, lemma_add_one_top, lemma_add_same_top, lemma_add_zero, lemma_mod_add,
    lemma_mod_double, lemma_mod_multiple, lemma_mod_small, lemma_mul_distrib_right,
    lemma_mul_double_right, lemma_mul_pow2, lemma_mul_zero, poly_add, poly_deg, poly_mod, poly_mul,
    poly_reduce_top,
};
use vstd::arithmetic::power2::{lemma_pow2_adds, lemma_pow2_pos, lemma_pow2_unfold, pow2};
use vstd::prelude::*;

verus! {

/// The field polynomial of order `k` whose low coefficients are `poly`.
pub open spec fn full_poly_of(order: nat, poly: nat) -> nat {
    pow2(order) + poly
}

/// Multiplication by `x` modulo the field polynomial.
fn times_x(order: u32, poly: u64, a: u64) -> (r: u64)
    requires
        2 <= order <= 32,
        poly < pow2(order as nat),
        a < pow2(order as nat),
    ensures
        r < pow2(order as nat),
        r == poly_reduce_top((2 * a) as nat, full_poly_of(order as nat, poly as nat)),
        r == poly_mod((2 * a) as nat, full_poly_of(order as nat, poly as nat)),
{
    let field_mask = low_mask(order);
    let high_bit = bit_at(order - 1);
    let ghost k = order as nat;
    let ghost p = full_poly_of(k, poly as nat);
    proof {
        lemma_pow2_fits(k);
        lemma_pow2_unfold(k);
        lemma_modulus(p, k);
        lemma_and_top_bit(a, (k - 1) as nat);
        lemma_shl_one(a);
        lemma_mod_small(a as nat, p);
        lemma_mod_double(a as nat, p);
    }
    if a & high_bit != zero() {
        proof {
            let t = pow2(k);
            let lo = (2 * a - t) as nat;
            lemma_xor(a << 1u64, poly);
            // 2a and p both have degree k, poly has lower degree
            lemma_add_same_top(k, (2 * a) as nat, p);
            lemma_add_comm_top(k, lo, poly as nat);
            lemma_and_low_mask((a << 1u64) ^ poly, k);
            vstd::arithmetic::div_mod::lemma_mod_add_multiples_vanish(
                poly_add(lo, poly as nat) as int,
                t as int,
            );
            vstd::arithmetic::div_mod::lemma_small_mod(poly_add(lo, poly as nat), t);
        }
        ((a << 1u64) ^ poly) & field_mask
    } else {
        a << 1u64
    }
}

/// A term of degree `k` added to the sum of two polynomials of lower degree.
proof fn lemma_add_comm_top(k: nat, lo: nat, c: nat)
    requires
        lo < pow2(k),
        c < pow2(k),
    ensures
        poly_add(pow2(k) + lo, c) == pow2(k) + poly_add(lo, c),
        poly_add(lo, c) < pow2(k),
{
    lemma_add_one_top(k, pow2(k) + lo, c);
    crate::poly::lemma_add_bound(k, lo, c);
}

/// Multiplying the right factor by `x` multiplies the product by `x`.
proof fn lemma_gf_mul_shift(p: nat, a: nat, i: nat)
    requires
        p != 0,
        i >= 1,
    ensures
        gf_mul(p, a, pow2(i)) == poly_mod(2 * gf_mul(p, a, pow2((i - 1) as nat)), p),
{
    let h = pow2((i - 1) as nat);
    lemma_pow2_unfold(i);
    lemma_mul_double_right(a, h);
    lemma_mod_double(poly_mul(a, h), p);
}

/// The binary digit of `b` with index `i` adds `a * x^i` to the product, or
/// nothing.
proof fn lemma_mul_digit(a: nat, b: nat, i: nat)
    ensures
        poly_mul(a, b % pow2(i + 1)) == poly_add(
            poly_mul(a, b % pow2(i)),
            if (b / pow2(i)) % 2 == 1 {
                pow2(i) * a
            } else {
                0
            },
        ),
{
    lemma_mod_pow2_step(b, i);
    let low = b % pow2(i);
    let digit = (b / pow2(i)) % 2;
    lemma_add_disjoint(i, low, digit);
    lemma_mul_distrib_right(a, low, pow2(i) * digit);
    lemma_mul_pow2(a, i);
    lemma_mul_zero(a);
    assert(pow2(i) * 1 == pow2(i)) by (nonlinear_arith);
    assert(pow2(i) * 0 == 0) by (nonlinear_arith);
    assert(a * pow2(i) == pow2(i) * a) by (nonlinear_arith);
}

/// The same modulo `p`.
proof fn lemma_gf_mul_digit(p: nat, a: nat, b: nat, i: nat)
    requires
        p != 0,
    ensures
        gf_mul(p, a, b % pow2(i + 1)) == poly_add(
            gf_mul(p, a, b % pow2(i)),
            if (b / pow2(i)) % 2 == 1 {
                gf_mul(p, a, pow2(i))
            } else {
                0
            },
        ),
{
    lemma_mul_digit(a, b, i);
    lemma_mul_pow2(a, i);
    assert(a * pow2(i) == pow2(i) * a) by (nonlinear_arith);
    lemma_mod_add(
        poly_mul(a, b % pow2(i)),
        if (b / pow2(i)) % 2 == 1 {
            pow2(i) * a
        } else {
            0
        },
        p,
    );
    assert(poly_mod(0, p) == 0);
}

/// The bit cursor leaves the field mask exactly when it has passed the last
/// bit of an element.
proof fn lemma_cursor_end(cursor: u64, i: nat, k: nat)
    requires
        1 <= i <= k < 64,
        cursor == pow2(i),
    ensures
        (cursor & ((pow2(k) - 1) as u64)) == 0 <==> i == k,
{
    lemma_and_low_mask(cursor, k);
    lemma_pow2_pos(i);
    if i < k {
        vstd::arithmetic::power2::lemma_pow2_strictly_increases(i, k);
        vstd::arithmetic::div_mod::lemma_small_mod(pow2(i), pow2(k));
    } else {
        vstd::arithmetic::div_mod::lemma_mod_self_0(pow2(k) as int);
    }
}

/// Product of `a` and `b` in the field of order `order` whose polynomial has
/// the low coefficients `poly`: shift and add, reducing as the shifts go.
pub fn field_mul(order: u32, poly: u64, a: u64, b: u64) -> (r: u64)
    requires
        2 <= order <= 32,
        poly < pow2(order as nat),
        a < pow2(order as nat),
        b < pow2(order as nat),
    ensures
        r == gf_mul(full_poly_of(order as nat, poly as nat), a as nat, b as nat),
        r < pow2(order as nat),
{
    let field_mask = low_mask(order);
    let ghost k = order as nat;
    let ghost p = full_poly_of(k, poly as nat);
    let mut shifted = a;
    let mut result: u64 = if b & one() != zero() {
        a
    } else {
        zero()
    };
    let mut bit: u64 = 2;
    let ghost mut i: nat = 1;
    proof {
        vstd::arithmetic::power2::lemma2_to64();
        lemma_pow2_fits(k);
        lemma_modulus(p, k);
        lemma_and_bit(b, 0);
        crate::gf::lemma_gf_mul_identity(p, a as nat);
    }
    loop
        invariant
            2 <= order <= 32,
            k == order as nat,
            p == full_poly_of(k, poly as nat),
            poly < pow2(k),
            b < pow2(k),
            field_mask == pow2(k) - 1,
            1 <= i < k,
            bit == pow2(i),
            shifted < pow2(k),
            shifted == gf_mul(p, a as nat, pow2((i - 1) as nat)),
            result < pow2(k),
            result == gf_mul(p, a as nat, b as nat % pow2(i)),
        decreases k - i,
    {
        shifted = times_x(order, poly, shifted);
        proof {
            lemma_pow2_fits(k);
            lemma_pow2_fits(i);
            lemma_modulus(p, k);
            lemma_gf_mul_shift(p, a as nat, i);
            lemma_gf_mul_digit(p, a as nat, b as nat, i);
            lemma_and_bit(b, i);
            lemma_xor(result, shifted);
            lemma_add_zero(result as nat);
            crate::poly::lemma_add_bound(k, result as nat, shifted as nat);
        }
        if b & bit != zero() {
            result = result ^ shifted
        }
        proof {
            lemma_shl_one(bit);
            lemma_pow2_unfold(i + 1);
            lemma_cursor_end(bit << 1u64, i + 1, k);
            vstd::arithmetic::div_mod::lemma_small_mod(b as nat, pow2(k));
            i = i + 1;
        }
        bit = bit << 1u64;
        if bit & field_mask == zero() {
            return result;
        }
    }
}

/// Product of the polynomials `a` and `b` without reduction, twice as wide as
/// the field's elements.
pub fn long_mul(order: u32, a: u64, b: u64) -> (r: u64)
    requires
        2 <= order <= 32,
        a < pow2(order as nat),
        b < pow2(order as nat),
    ensures
        r == poly_mul(a as nat, b as nat),
        r < pow2(2 * order as nat),
{
    let field_mask = low_mask(order);
    let ghost k = order as nat;
    let mut aa: u64 = a;
    let mut res: u64 = zero();
    let mut mask: u64 = one();
    let ghost mut i: nat = 0;
    proof {
        vstd::arithmetic::power2::lemma2_to64();
        lemma_mul_zero(a as nat);
        lemma_pow2_pos(k);
        assert(pow2(0) * a == a) by (nonlinear_arith)
            requires
                pow2(0) == 1,
        ;
    }
    loop
        invariant
            2 <= order <= 32,
            k == order as nat,
            a < pow2(k),
            b < pow2(k),
            field_mask == pow2(k) - 1,
            i < k,
            mask == pow2(i),
            aa == pow2(i) * a,
            res == poly_mul(a as nat, b as nat % pow2(i)),
            res < pow2(k + i),
        decreases k - i,
    {
        proof {
            lemma_pow2_fits(i);
            lemma_pow2_fits(k);
            lemma_pow2_fits(k + i);
            lemma_pow2_adds(k, i);
            lemma_pow2_unfold(i + 1);
            lemma_pow2_unfold(k + i + 1);
            assert(pow2(i) * a < pow2(k) * pow2(i)) by (nonlinear_arith)
                requires
                    a < pow2(k),
                    0 < pow2(i),
            ;
            lemma_and_bit(b, i);
            lemma_mul_digit(a as nat, b as nat, i);
            lemma_xor(res, aa);
            lemma_add_zero(res as nat);
            crate::poly::lemma_add_bound(k + i + 1, res as nat, aa as nat);
        }
        if b & mask != zero() {
            res = res ^ aa
        }
        proof {
            lemma_shl_one(mask);
            lemma_shl_one(aa);
            assert(pow2(i + 1) * a == 2 * (pow2(i) * a)) by (nonlinear_arith)
                requires
                    pow2(i + 1) == 2 * pow2(i),
            ;
            lemma_cursor_end(mask << 1u64, i + 1, k);
            vstd::arithmetic::div_mod::lemma_small_mod(b as nat, pow2(k));
            assert(2 * k == k + k);
            i = i + 1;
        }
        mask = mask << 1u64;
        aa = aa << 1u64;
        if mask & field_mask == zero() {
            return res;
        }
    }
}

/// Remainder of the double-width polynomial `a` modulo the field polynomial
/// `full`, one bit at a time from the top.
pub fn reduce(order: u32, full: u64, a: u64) -> (r: u64)
    requires
        2 <= order <= 32,
        is_modulus(full as nat, order as nat),
        a < pow2(2 * order as nat),
    ensures
        r == poly_mod(a as nat, full as nat),
        r < pow2(order as nat),
{
    let ghost k = order as nat;
    let ghost p = full as nat;
    let poly_bit = bit_at(order);
    let mut rest = a;
    proof {
        lemma_pow2_fits(k);
        lemma_pow2_fits((2 * k - 1) as nat);
        lemma_pow2_adds(k, (k - 1) as nat);
        lemma_pow2_adds(k + 1, (k - 1) as nat);
        lemma_pow2_unfold(k + 1);
        lemma_pow2_unfold(2 * k);
        assert(2 * k == k + 1 + (k - 1));
        assert(full * pow2((k - 1) as nat) < pow2(k + 1) * pow2((k - 1) as nat))
            by (nonlinear_arith)
            requires
                full < pow2(k + 1),
                0 < pow2((k - 1) as nat),
        ;
        crate::machine::lemma_shl(full, (order - 1) as u64);
        crate::machine::lemma_shl(poly_bit, (order - 1) as u64);
        lemma_modulus(p, k);
    }
    let mut poly: u64 = full << ((order - 1) as u64);
    let mut mask: u64 = poly_bit << ((order - 1) as u64);
    let ghost mut j: nat = (k - 1) as nat;
    loop
        invariant
            2 <= order <= 32,
            k == order as nat,
            p == full as nat,
            is_modulus(p, k),
            poly_bit == pow2(k),
            j < k,
            mask == pow2(k) * pow2(j),
            poly == p * pow2(j),
            rest < 2 * mask,
            poly_mod(rest as nat, p) == poly_mod(a as nat, p),
        decreases j,
    {
        proof {
            let t = pow2(j);
            lemma_pow2_pos(j);
            lemma_pow2_adds(k, j);
            lemma_pow2_fits(k + j);
            lemma_modulus(p, k);
            lemma_and_top_bit(rest, k + j);
            lemma_xor(rest, poly);
            // poly is a multiple of p with the degree of mask
            lemma_mul_pow2(p, j);
            lemma_mod_multiple(t, p);
            lemma_mod_add(rest as nat, poly as nat, p);
            lemma_add_zero(poly_mod(rest as nat, p));
            assert(mask <= poly < 2 * mask) by (nonlinear_arith)
                requires
                    pow2(k) <= p < 2 * pow2(k),
                    mask == pow2(k) * t,
                    poly == p * t,
                    0 < t,
            ;
            if rest >= mask {
                lemma_add_same_top(k + j, rest as nat, poly as nat);
            }
        }
        if rest & mask != zero() {
            rest = rest ^ poly
        }
        proof {
            if j == 0 {
                vstd::arithmetic::power2::lemma2_to64();
                assert(pow2(k) * 1 == pow2(k)) by (nonlinear_arith);
            }
            if rest < poly_bit {
                lemma_mod_small(rest as nat, p);
            }
        }
        if rest < poly_bit {
            return rest;
        }
        proof {
            lemma_shr_one(mask);
            lemma_shr_one(poly);
            lemma_pow2_unfold(j);
            let h = pow2((j - 1) as nat);
            assert(pow2(k) * pow2(j) == 2 * (pow2(k) * h)) by (nonlinear_arith)
                requires
                    pow2(j) == 2 * h,
            ;
            assert(p * pow2(j) == 2 * (p * h)) by (nonlinear_arith)
                requires
                    pow2(j) == 2 * h,
            ;
            j = (j - 1) as nat;
        }
        mask = mask >> 1u64;
        poly = poly >> 1u64;
    }
}

/// `x^i * v` added to `u`, cut to the width of the field.
fn add_shifted(order: u32, field_mask: u64, u: u64, v: u64, i: u32) -> (r: u64)
    requires
        2 <= order <= 32,
        field_mask == pow2(order as nat) - 1,
        i < 64,
        pow2(i as nat) * (v as nat) < 2 * pow2(order as nat),
    ensures
        r == poly_add(u as nat, pow2(i as nat) * (v as nat)) % pow2(order as nat),
{
    proof {
        lemma_pow2_fits(order as nat);
        assert(v * pow2(i as nat) == pow2(i as nat) * (v as nat)) by (nonlinear_arith);
        lemma_shl(v, i as u64);
        lemma_xor(u, v << (i as u64));
        lemma_and_low_mask(u ^ (v << (i as u64)), order as nat);
    }
    (u ^ (v << (i as u64))) & field_mask
}

/// The low coefficients of the modulus, plus a polynomial of the modulus's
/// degree, cut to the width of the field: the modulus plus that polynomial.
proof fn lemma_add_modulus(k: nat, c: nat, x: nat)
    requires
        c < pow2(k),
        pow2(k) <= x < 2 * pow2(k),
    ensures
        poly_add(c, x) % pow2(k) == poly_add(pow2(k) + c, x),
{
    let t = pow2(k);
    let lo = (x - t) as nat;
    lemma_pow2_pos(k);
    lemma_add_same_top(k, t + c, x);
    crate::poly::lemma_add_comm(c, x);
    lemma_add_one_top(k, x, c);
    crate::poly::lemma_add_comm(lo, c);
    vstd::arithmetic::div_mod::lemma_mod_add_multiples_vanish(poly_add(c, lo) as int, t as int);
    vstd::arithmetic::div_mod::lemma_small_mod(poly_add(c, lo), t);
}

/// Inverse of `a` in the field of order `order` whose polynomial has the low
/// coefficients `poly`, by the extended Euclidean algorithm; 0 for 0.
///
/// Modulo an irreducible polynomial every element but 0 has an inverse. Where
/// the polynomial is not irreducible, an element without inverse gets 0 too.
pub fn field_inv(order: u32, poly: u64, a: u64) -> (r: u64)
    requires
        2 <= order <= 32,
        poly < pow2(order as nat),
        a < pow2(order as nat),
    ensures
        r == gf_inv(full_poly_of(order as nat, poly as nat), a as nat),
        r < pow2(order as nat),
        is_unit(full_poly_of(order as nat, poly as nat), a as nat) ==> gf_mul(
            full_poly_of(order as nat, poly as nat),
            a as nat,
            r as nat,
        ) == 1,
{
    let ghost k = order as nat;
    let ghost p = full_poly_of(k, poly as nat);
    proof {
        lemma_modulus(p, k);
        lemma_pow2_fits(k);
        lemma_pow2_unfold(k + 1);
        if is_unit(p, a as nat) {
            crate::gf::lemma_gf_inv_of_unit(p, a as nat);
        }
    }
    if a == zero() || a == one() {
        proof {
            crate::gf::lemma_gf_inv_zero(p);
            crate::gf::lemma_gf_inv_one(p, k);
        }
        return a;
    }
    let field_mask = low_mask(order);
    // the storage is wider than the field by this many bits
    let fixup: u32 = leading_zeros(zero()) - order;
    let mut u: u64 = poly;
    let mut v: u64 = a;
    let mut z: u64 = zero();
    let mut g: u64 = one();
    let lz_v = leading_zeros(v);
    proof {
        lemma_leading_zeros_deg(v, lz_v);
        crate::poly::lemma_deg_below(v as nat, k);
    }
    let mut i: u32 = 1 + lz_v - fixup;
    proof {
        let sh = pow2(i as nat);
        lemma_mul_zero(a as nat);
        crate::poly::lemma_mod_self(p);
        crate::poly::lemma_mul_one(a as nat);
        lemma_mod_small(a as nat, p);
        vstd::arithmetic::power2::lemma2_to64();
        lemma_inv_step(p, k, a as nat, p, a as nat, 0, 1);
        lemma_add_modulus(k, poly as nat, sh * (a as nat));
        lemma_add_zero(sh * 1);
        assert(sh * 1 == sh) by (nonlinear_arith);
        vstd::arithmetic::div_mod::lemma_small_mod(sh, pow2(k));
    }
    u = add_shifted(order, field_mask, u, v, i);
    z = add_shifted(order, field_mask, z, g, i);
    while u != one()
        invariant
            2 <= order <= 32,
            k == order as nat,
            p == full_poly_of(k, poly as nat),
            field_mask == pow2(k) - 1,
            inv_state(p, k, a as nat, u as nat, v as nat, z as nat, g as nat),
        decreases poly_deg(u as nat) + poly_deg(v as nat),
    {
        if u == zero() {
            proof {
                lemma_inv_none(p, k, a as nat, v as nat, z as nat, g as nat);
            }
            return zero();
        }
        let lz_u = leading_zeros(u);
        let lz_v = leading_zeros(v);
        proof {
            lemma_leading_zeros_deg(u, lz_u);
            lemma_leading_zeros_deg(v, lz_v);
            crate::poly::lemma_deg_below(u as nat, k);
            crate::poly::lemma_deg_below(v as nat, k);
            lemma_modulus(p, k);
            lemma_mod_small(v as nat, p);
            lemma_mod_small(u as nat, p);
        }
        if lz_u > lz_v {
            let w = u;
            u = v;
            v = w;
            let w = z;
            z = g;
            g = w;
        }
        let lz_u = leading_zeros(u);
        let lz_v = leading_zeros(v);
        proof {
            lemma_leading_zeros_deg(u, lz_u);
            lemma_leading_zeros_deg(v, lz_v);
        }
        i = lz_v - lz_u;
        proof {
            let sh = pow2(i as nat);
            lemma_inv_step(p, k, a as nat, u as nat, v as nat, z as nat, g as nat);
            crate::poly::lemma_deg_below(u as nat, k);
            lemma_pow2_le(poly_deg(u as nat) + 1, k);
            lemma_pow2_unfold(poly_deg(u as nat) + 1);
            vstd::arithmetic::div_mod::lemma_small_mod(
                poly_add(u as nat, sh * (v as nat)),
                pow2(k),
            );
            vstd::arithmetic::div_mod::lemma_small_mod(
                poly_add(z as nat, sh * (g as nat)),
                pow2(k),
            );
        }
        u = add_shifted(order, field_mask, u, v, i);
        z = add_shifted(order, field_mask, z, g, i);
    }
    proof {
        lemma_inv_found(p, k, a as nat, v as nat, z as nat, g as nat);
    }
    z
}

} // verus!
