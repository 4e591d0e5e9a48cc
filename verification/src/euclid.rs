//! The invariant of the extended Euclidean algorithm on polynomials over
//! GF(2), as it is run to invert an element: what one elimination step keeps
//! true, and what the two ways in which the algorithm ends mean.

use crate::gf::{gf_inv, is_inverse, is_modulus, is_unit, lemma_modulus};
use crate::poly::{
    lemma_add_bound, lemma_add_cancel, lemma_add_same_top, lemma_add_zero, lemma_deg_below,
    lemma_deg_bounds, lemma_div_mod, lemma_mod_add, lemma_mod_mul_left, lemma_mod_mul_right,
    lemma_mod_self, lemma_mod_shift, lemma_mod_small, lemma_mul_comm, lemma_mul_distrib_left,
    lemma_mul_shift, lemma_mul_zero, poly_add, poly_deg, poly_div, poly_divides, poly_mod,
    poly_mul,
};
use vstd::arithmetic::power2::{lemma_pow2_adds, lemma_pow2_pos, lemma_pow2_unfold, pow2};
use vstd::prelude::*;

verus! {

/// Whatever divides both `u` and `v` divides both `p` and `a`.
pub open spec fn shares_divisors(u: nat, v: nat, p: nat, a: nat) -> bool {
    forall|d: nat|
        #![trigger poly_divides(d, u), poly_divides(d, v)]
        poly_divides(d, u) && poly_divides(d, v) ==> poly_divides(d, p) && poly_divides(d, a)
}

/// What holds between two rounds of the algorithm that inverts `a` modulo `p`:
/// `z * a` is congruent to `u` and `g * a` to `v`, the common divisors of `u`
/// and `v` are common divisors of `p` and `a`, and the cofactors `z`, `g` are
/// short enough for the next shift.
pub open spec fn inv_state(p: nat, k: nat, a: nat, u: nat, v: nat, z: nat, g: nat) -> bool {
    &&& is_modulus(p, k)
    &&& u < pow2(k)
    &&& 2 <= v < pow2(k)
    &&& poly_mod(poly_mul(z, a), p) == u
    &&& poly_mod(poly_mul(g, a), p) == v
    &&& shares_divisors(u, v, p, a)
    &&& z < 2 * pow2((k - poly_deg(v)) as nat)
    &&& g < pow2((k - poly_deg(u)) as nat)
}

/// An element that has a divisor other than 1 in common with the modulus is no
/// unit.
pub proof fn lemma_common_divisor(p: nat, a: nat, d: nat)
    requires
        p != 0,
        d >= 2,
        poly_divides(d, p),
        poly_divides(d, a),
    ensures
        !is_unit(p, a),
{
    if is_unit(p, a) {
        let y = choose|y: nat| is_inverse(p, a, y);
        let prod = poly_mul(a, y);
        let q = poly_div(prod, p);
        // a y = q p + 1, and d divides a y and q p, so d divides 1
        lemma_div_mod(prod, p);
        lemma_mod_add(poly_mul(q, p), 1, d);
        lemma_mod_mul_left(a, y, d);
        lemma_mod_mul_right(q, p, d);
        lemma_mul_zero(y);
        lemma_mul_zero(q);
        assert(poly_mod(0, d) == 0);
        lemma_add_zero(poly_mod(1, d));
        lemma_deg_bounds(d);
        assert(poly_deg(d) >= 1);
        lemma_pow2_unfold(poly_deg(d));
        lemma_pow2_pos((poly_deg(d) - 1) as nat);
        lemma_mod_small(1, d);
    }
}

/// One elimination step: `x^i * v`, of the degree of `u`, is added to `u`, and
/// the cofactor `z` follows. `u` may still be the modulus itself, as it is in
/// the first step.
pub proof fn lemma_inv_step(p: nat, k: nat, a: nat, u: nat, v: nat, z: nat, g: nat)
    requires
        is_modulus(p, k),
        2 <= u,
        2 <= v < pow2(k),
        poly_deg(v) <= poly_deg(u) <= k,
        poly_mod(poly_mul(z, a), p) == poly_mod(u, p),
        poly_mod(poly_mul(g, a), p) == v,
        shares_divisors(u, v, p, a),
        z < 2 * pow2((k - poly_deg(v)) as nat),
        g < 2 * pow2((k - poly_deg(u)) as nat),
    ensures
        ({
            let sh = pow2((poly_deg(u) - poly_deg(v)) as nat);
            let u2 = poly_add(u, sh * v);
            let z2 = poly_add(z, sh * g);
            &&& pow2(poly_deg(u)) <= sh * v < 2 * pow2(poly_deg(u))
            &&& sh * g < pow2(k)
            &&& u2 < pow2(poly_deg(u))
            &&& poly_deg(u2) < poly_deg(u)
            &&& z2 < pow2(k)
            &&& inv_state(p, k, a, u2, v, z2, g)
        }),
{
    let du = poly_deg(u);
    let dv = poly_deg(v);
    let i = (du - dv) as nat;
    let sh = pow2(i);
    let u2 = poly_add(u, sh * v);
    let z2 = poly_add(z, sh * g);
    lemma_modulus(p, k);
    lemma_deg_bounds(u);
    lemma_deg_bounds(v);
    lemma_pow2_pos(i);
    lemma_pow2_adds(i, dv);
    // the shifted v has the degree of u
    assert(pow2(du) <= sh * v < 2 * pow2(du)) by (nonlinear_arith)
        requires
            pow2(dv) <= v < 2 * pow2(dv),
            pow2(du) == sh * pow2(dv),
            0 < sh,
    ;
    lemma_add_same_top(du, u, sh * v);
    assert(du >= 1) by {
        if du == 0 {
            vstd::arithmetic::power2::lemma2_to64();
        }
    }
    lemma_deg_below(u2, du);
    // what divides the new u and v divides the old u
    assert forall|d: nat|
        #![trigger poly_divides(d, u2), poly_divides(d, v)]
        poly_divides(d, u2) && poly_divides(d, v) implies poly_divides(d, p) && poly_divides(
        d,
        a,
    ) by {
        lemma_mod_shift(v, i, d);
        assert(sh * 0 == 0) by (nonlinear_arith);
        assert(poly_mod(0, d) == 0);
        lemma_add_cancel(u, sh * v);
        lemma_mod_add(u2, sh * v, d);
        lemma_add_zero(0);
        assert(poly_divides(d, u));
    }
    // the congruence
    lemma_mul_shift(i, g, a);
    lemma_mul_distrib_left(z, sh * g, a);
    lemma_mod_add(poly_mul(z, a), sh * poly_mul(g, a), p);
    lemma_mod_shift(poly_mul(g, a), i, p);
    lemma_mod_add(u, sh * v, p);
    vstd::arithmetic::power2::lemma_pow2_strictly_increases(du, k + 1);
    lemma_pow2_unfold(k + 1);
    if du < k {
        vstd::arithmetic::power2::lemma_pow2_strictly_increases(du, k);
    }
    lemma_mod_small(u2, p);
    // the cofactors stay short
    let ez = (k - dv) as nat;
    lemma_pow2_adds(i, (k - du) as nat);
    assert(sh * g < 2 * pow2(ez)) by (nonlinear_arith)
        requires
            g < 2 * pow2((k - du) as nat),
            pow2(ez) == sh * pow2((k - du) as nat),
            0 < sh,
    ;
    lemma_pow2_unfold(ez + 1);
    lemma_add_bound(ez + 1, z, sh * g);
    assert(dv >= 1) by {
        if dv == 0 {
            vstd::arithmetic::power2::lemma2_to64();
        }
    }
    crate::machine::lemma_pow2_le(ez + 1, k);
    crate::machine::lemma_pow2_le((k - du) as nat + 1, (k - poly_deg(u2)) as nat);
    lemma_pow2_unfold((k - du) as nat + 1);
}

/// Where `u` has become 1, `z` is the inverse.
pub proof fn lemma_inv_found(p: nat, k: nat, a: nat, v: nat, z: nat, g: nat)
    requires
        inv_state(p, k, a, 1, v, z, g),
    ensures
        is_inverse(p, a, z),
        gf_inv(p, a) == z,
        z < pow2(k),
{
    lemma_modulus(p, k);
    lemma_deg_bounds(v);
    lemma_deg_below(v, k);
    assert(poly_deg(v) >= 1) by {
        if poly_deg(v) == 0 {
            vstd::arithmetic::power2::lemma2_to64();
        }
    }
    lemma_pow2_unfold((k - poly_deg(v)) as nat + 1);
    crate::machine::lemma_pow2_le((k - poly_deg(v)) as nat + 1, k);
    lemma_mul_comm(z, a);
    crate::gf::lemma_gf_inv_is(p, a, z);
}

/// Where `u` has become 0, `v` divides both the modulus and `a`, and `a` has
/// no inverse.
pub proof fn lemma_inv_none(p: nat, k: nat, a: nat, v: nat, z: nat, g: nat)
    requires
        inv_state(p, k, a, 0, v, z, g),
    ensures
        !is_unit(p, a),
        gf_inv(p, a) == 0,
{
    lemma_modulus(p, k);
    lemma_mod_self(v);
    assert(poly_mod(0, v) == 0);
    assert(poly_divides(v, 0) && poly_divides(v, v));
    lemma_common_divisor(p, a, v);
}

} // verus!
