//! Arithmetic in GF(2)[x] modulo a polynomial, as ghost functions on natural
//! numbers, and the laws that the executable field operations are stated over.
//!
//! A modulus `p` of degree `k` makes the numbers below `2^k` the elements.
//! Where `p` is irreducible they form the field GF(2^k); the laws below say
//! which of them need that and which hold for every modulus.

use crate::poly::{
    lemma_add_zero, lemma_deg_bounds, lemma_div_mod, lemma_mod_add, lemma_mod_bound,
    lemma_mod_mul_left, lemma_mod_mul_right, lemma_mod_multiple, lemma_mod_self,
    lemma_mod_small, lemma_mul_assoc, lemma_mul_comm, lemma_mul_distrib_left,
    lemma_mul_distrib_right, lemma_mul_one, lemma_mul_zero, poly_add, poly_deg, poly_div,
    poly_divides, poly_mod, poly_mul,
};
use vstd::arithmetic::power2::{lemma_pow2_pos, lemma_pow2_unfold, pow2};
use vstd::prelude::*;

verus! {

/// `p` is a polynomial of degree exactly `k`, with `k >= 1`.
pub open spec fn is_modulus(p: nat, k: nat) -> bool {
    k >= 1 && pow2(k) <= p < 2 * pow2(k)
}

/// Product of two elements modulo `p`.
pub open spec fn gf_mul(p: nat, a: nat, b: nat) -> nat {
    poly_mod(poly_mul(a, b), p)
}

/// `a` multiplied `n` times into 1, modulo `p`.
pub open spec fn gf_pow(p: nat, a: nat, n: nat) -> nat
    decreases n,
{
    if n == 0 {
        1
    } else {
        gf_mul(p, gf_pow(p, a, (n - 1) as nat), a)
    }
}

/// `z` is an element and the product of `a` and `z` is 1.
pub open spec fn is_inverse(p: nat, a: nat, z: nat) -> bool {
    z < pow2(poly_deg(p)) && gf_mul(p, a, z) == 1
}

/// `a` has a multiplicative inverse modulo `p`.
pub open spec fn is_unit(p: nat, a: nat) -> bool {
    exists|z: nat| is_inverse(p, a, z)
}

/// The inverse of `a` modulo `p` where there is one, and 0 where there is none
/// (so for `a == 0`).
pub open spec fn gf_inv(p: nat, a: nat) -> nat {
    if is_unit(p, a) {
        choose|z: nat| is_inverse(p, a, z)
    } else {
        0
    }
}

/// The degree of a modulus, and what it means for the elements 0 and 1.
pub proof fn lemma_modulus(p: nat, k: nat)
    requires
        is_modulus(p, k),
    ensures
        poly_deg(p) == k,
        p != 0,
        2 <= pow2(k),
{
    crate::poly::lemma_deg_unique(p, k);
    lemma_pow2_unfold(k);
    lemma_pow2_pos((k - 1) as nat);
}

/// A product is an element again.
pub proof fn lemma_gf_mul_bound(p: nat, a: nat, b: nat)
    requires
        p != 0,
    ensures
        gf_mul(p, a, b) < pow2(poly_deg(p)),
{
    lemma_mod_bound(poly_mul(a, b), p);
}

/// Multiplication is commutative.
pub proof fn lemma_gf_mul_comm(p: nat, a: nat, b: nat)
    ensures
        gf_mul(p, a, b) == gf_mul(p, b, a),
{
    lemma_mul_comm(a, b);
}

/// Multiplication is associative.
pub proof fn lemma_gf_mul_assoc(p: nat, a: nat, b: nat, c: nat)
    requires
        p != 0,
    ensures
        gf_mul(p, gf_mul(p, a, b), c) == gf_mul(p, a, gf_mul(p, b, c)),
{
    lemma_mod_mul_left(poly_mul(a, b), c, p);
    lemma_mul_assoc(a, b, c);
    lemma_mod_mul_right(a, poly_mul(b, c), p);
}

/// Multiplication distributes over addition.
pub proof fn lemma_gf_mul_distrib(p: nat, a1: nat, a2: nat, b: nat)
    requires
        p != 0,
    ensures
        gf_mul(p, poly_add(a1, a2), b) == poly_add(gf_mul(p, a1, b), gf_mul(p, a2, b)),
        gf_mul(p, b, poly_add(a1, a2)) == poly_add(gf_mul(p, b, a1), gf_mul(p, b, a2)),
{
    lemma_mul_distrib_left(a1, a2, b);
    lemma_mod_add(poly_mul(a1, b), poly_mul(a2, b), p);
    lemma_gf_mul_comm(p, b, poly_add(a1, a2));
    lemma_gf_mul_comm(p, b, a1);
    lemma_gf_mul_comm(p, b, a2);
}

/// 1 is the identity of multiplication on the elements, and 0 absorbs.
pub proof fn lemma_gf_mul_identity(p: nat, a: nat)
    requires
        a < pow2(poly_deg(p)),
    ensures
        gf_mul(p, a, 1) == a,
        gf_mul(p, 1, a) == a,
        gf_mul(p, a, 0) == 0,
        gf_mul(p, 0, a) == 0,
{
    lemma_mul_one(a);
    lemma_mul_zero(a);
    lemma_mod_small(a, p);
    assert(poly_mod(0, p) == 0);
}

/// 0 absorbs whatever the other factor.
pub proof fn lemma_gf_mul_zero(p: nat, a: nat)
    ensures
        gf_mul(p, a, 0) == 0,
        gf_mul(p, 0, a) == 0,
{
    lemma_mul_zero(a);
    assert(poly_mod(0, p) == 0);
}

/// Adding the zero element changes nothing.
pub proof fn lemma_gf_add_zero(a: nat)
    ensures
        poly_add(a, 0) == a,
{
    lemma_add_zero(a);
}

// ---------------------------------------------------------------------------
// Powers
// ---------------------------------------------------------------------------

/// A power is an element.
pub proof fn lemma_gf_pow_bound(p: nat, k: nat, a: nat, n: nat)
    requires
        is_modulus(p, k),
    ensures
        gf_pow(p, a, n) < pow2(k),
{
    lemma_modulus(p, k);
    if n != 0 {
        lemma_gf_mul_bound(p, gf_pow(p, a, (n - 1) as nat), a);
    }
}

/// The first power of an element is the element.
pub proof fn lemma_gf_pow_one(p: nat, k: nat, a: nat)
    requires
        is_modulus(p, k),
        a < pow2(k),
    ensures
        gf_pow(p, a, 1) == a,
{
    lemma_modulus(p, k);
    assert(gf_pow(p, a, 1) == gf_mul(p, gf_pow(p, a, 0), a));
    lemma_gf_mul_identity(p, a);
}

/// Exponents add where powers are multiplied.
pub proof fn lemma_gf_pow_add(p: nat, k: nat, a: nat, m: nat, n: nat)
    requires
        is_modulus(p, k),
    ensures
        gf_pow(p, a, m + n) == gf_mul(p, gf_pow(p, a, m), gf_pow(p, a, n)),
    decreases n,
{
    lemma_modulus(p, k);
    if n == 0 {
        lemma_gf_pow_bound(p, k, a, m);
        lemma_gf_mul_identity(p, gf_pow(p, a, m));
    } else {
        lemma_gf_pow_add(p, k, a, m, (n - 1) as nat);
        lemma_gf_mul_assoc(p, gf_pow(p, a, m), gf_pow(p, a, (n - 1) as nat), a);
        assert(gf_pow(p, a, m + n) == gf_mul(p, gf_pow(p, a, (m + n - 1) as nat), a));
    }
}

/// The square of a power is the power with twice the exponent.
pub proof fn lemma_gf_pow_double(p: nat, k: nat, a: nat, n: nat)
    requires
        is_modulus(p, k),
    ensures
        gf_pow(p, a, 2 * n) == gf_mul(p, gf_pow(p, a, n), gf_pow(p, a, n)),
{
    lemma_gf_pow_add(p, k, a, n, n);
}

/// A power of the element 1 is 1.
pub proof fn lemma_gf_pow_of_one(p: nat, k: nat, n: nat)
    requires
        is_modulus(p, k),
    ensures
        gf_pow(p, 1, n) == 1,
    decreases n,
{
    lemma_modulus(p, k);
    if n != 0 {
        lemma_gf_pow_of_one(p, k, (n - 1) as nat);
        lemma_gf_mul_identity(p, 1);
    }
}

/// A power of a power is the power with the product of the exponents.
pub proof fn lemma_gf_pow_pow(p: nat, k: nat, a: nat, m: nat, n: nat)
    requires
        is_modulus(p, k),
    ensures
        gf_pow(p, gf_pow(p, a, m), n) == gf_pow(p, a, m * n),
    decreases n,
{
    if n == 0 {
        assert(m * 0 == 0) by (nonlinear_arith);
    } else {
        lemma_gf_pow_pow(p, k, a, m, (n - 1) as nat);
        lemma_gf_pow_add(p, k, a, m * ((n - 1) as nat), m);
        assert(m * ((n - 1) as nat) + m == m * n) by (nonlinear_arith)
            requires
                n >= 1,
        ;
    }
}

/// Where the `m`-th power of `a` is 1, exponents count modulo `m`.
pub proof fn lemma_gf_pow_cycle(p: nat, k: nat, a: nat, m: nat, n: nat)
    requires
        is_modulus(p, k),
        m > 0,
        gf_pow(p, a, m) == 1,
    ensures
        gf_pow(p, a, n) == gf_pow(p, a, n % m),
    decreases n,
{
    lemma_modulus(p, k);
    if n >= m {
        let r = (n - m) as nat;
        lemma_gf_pow_cycle(p, k, a, m, r);
        lemma_gf_pow_add(p, k, a, r, m);
        lemma_gf_pow_bound(p, k, a, r);
        lemma_gf_mul_identity(p, gf_pow(p, a, r));
        assert(n % m == r % m) by {
            vstd::arithmetic::div_mod::lemma_mod_sub_multiples_vanish(n as int, m as int);
        }
    } else {
        vstd::arithmetic::div_mod::lemma_small_mod(n, m);
    }
}

// ---------------------------------------------------------------------------
// Inverses
// ---------------------------------------------------------------------------

/// An element has at most one inverse.
pub proof fn lemma_inverse_unique(p: nat, a: nat, y: nat, z: nat)
    requires
        p != 0,
        is_inverse(p, a, y),
        is_inverse(p, a, z),
    ensures
        y == z,
{
    // y = y(az) = (ya)z = z
    lemma_gf_mul_identity(p, y);
    lemma_gf_mul_identity(p, z);
    lemma_gf_mul_assoc(p, y, a, z);
    lemma_gf_mul_comm(p, y, a);
}

/// Whatever inverse is found for `a`, it is `gf_inv(p, a)`.
pub proof fn lemma_gf_inv_is(p: nat, a: nat, z: nat)
    requires
        p != 0,
        is_inverse(p, a, z),
    ensures
        is_unit(p, a),
        gf_inv(p, a) == z,
{
    lemma_inverse_unique(p, a, gf_inv(p, a), z);
}

/// The inverse of a unit is an element whose product with the unit is 1.
pub proof fn lemma_gf_inv_of_unit(p: nat, a: nat)
    requires
        is_unit(p, a),
    ensures
        is_inverse(p, a, gf_inv(p, a)),
        gf_inv(p, a) < pow2(poly_deg(p)),
        gf_mul(p, a, gf_inv(p, a)) == 1,
        gf_mul(p, gf_inv(p, a), a) == 1,
{
    lemma_gf_mul_comm(p, a, gf_inv(p, a));
}

/// 0 is no unit, and its inverse is 0 by convention.
pub proof fn lemma_gf_inv_zero(p: nat)
    ensures
        !is_unit(p, 0),
        gf_inv(p, 0) == 0,
{
    assert forall|z: nat| !is_inverse(p, 0, z) by {
        lemma_gf_mul_zero(p, z);
    }
}

/// 1 is its own inverse.
pub proof fn lemma_gf_inv_one(p: nat, k: nat)
    requires
        is_modulus(p, k),
    ensures
        is_unit(p, 1),
        gf_inv(p, 1) == 1,
{
    lemma_modulus(p, k);
    lemma_gf_mul_identity(p, 1);
    assert(is_inverse(p, 1, 1));
    lemma_gf_inv_is(p, 1, 1);
}

/// Taking the inverse twice gives the element back: for a unit among the
/// elements, and for 0.
pub proof fn lemma_gf_inv_inv(p: nat, a: nat)
    requires
        p != 0,
        a < pow2(poly_deg(p)),
        a == 0 || is_unit(p, a),
    ensures
        gf_inv(p, gf_inv(p, a)) == a,
{
    if a == 0 {
        lemma_gf_inv_zero(p);
    } else {
        lemma_gf_inv_of_unit(p, a);
        assert(is_inverse(p, gf_inv(p, a), a));
        lemma_gf_inv_is(p, gf_inv(p, a), a);
    }
}

/// An element one of whose positive powers is 1 is a unit, and so is each of
/// its powers.
pub proof fn lemma_unit_of_order(p: nat, k: nat, a: nat, m: nat, n: nat)
    requires
        is_modulus(p, k),
        m > 0,
        gf_pow(p, a, m) == 1,
    ensures
        is_unit(p, gf_pow(p, a, n)),
    decreases n,
{
    lemma_modulus(p, k);
    let r = n % m;
    lemma_gf_pow_cycle(p, k, a, m, n);
    assert(r < m) by {
        vstd::arithmetic::div_mod::lemma_mod_bound(n as int, m as int);
    }
    lemma_gf_pow_add(p, k, a, r, (m - r) as nat);
    lemma_gf_pow_bound(p, k, a, (m - r) as nat);
    assert(is_inverse(p, gf_pow(p, a, r), gf_pow(p, a, (m - r) as nat)));
}

// ---------------------------------------------------------------------------
// Square and multiply
// ---------------------------------------------------------------------------

/// One round of square and multiply: the power with the exponent `e / 2^j`,
/// squared and multiplied by `a` where the next binary digit of `e` is 1, is
/// the power with the exponent `e / 2^(j-1)`.
pub proof fn lemma_gf_pow_step(p: nat, k: nat, a: nat, e: nat, j: nat)
    requires
        is_modulus(p, k),
        j >= 1,
    ensures
        ({
            let q = e / pow2(j);
            let r = gf_pow(p, a, q);
            let sq = gf_mul(p, r, r);
            gf_pow(p, a, e / pow2((j - 1) as nat)) == if (e / pow2((j - 1) as nat)) % 2 == 1 {
                gf_mul(p, sq, a)
            } else {
                sq
            }
        }),
{
    let h = pow2((j - 1) as nat);
    let q = e / pow2(j);
    lemma_pow2_unfold(j);
    lemma_pow2_pos((j - 1) as nat);
    assert((e / h) / 2 == e / (h * 2)) by {
        vstd::arithmetic::div_mod::lemma_div_denominator(e as int, h as int, 2);
    }
    assert(h * 2 == pow2(j));
    lemma_gf_pow_double(p, k, a, q);
    if (e / h) % 2 == 1 {
        assert(e / h == 2 * q + 1);
        assert(gf_pow(p, a, 2 * q + 1) == gf_mul(p, gf_pow(p, a, ((2 * q + 1) - 1) as nat), a));
    } else {
        assert(e / h == 2 * q);
    }
}

/// The leading binary digit of an exponent is 1.
pub proof fn lemma_gf_pow_start(e: nat, j: nat)
    requires
        pow2(j) <= e < 2 * pow2(j),
    ensures
        e / pow2(j) == 1,
{
    lemma_pow2_pos(j);
    let t = pow2(j) as int;
    vstd::arithmetic::div_mod::lemma_fundamental_div_mod(e as int, t);
    vstd::arithmetic::div_mod::lemma_mod_bound(e as int, t);
    let q = e as int / t;
    assert(q == 1) by (nonlinear_arith)
        requires
            e as int == t * q + e as int % t,
            0 <= e as int % t < t,
            t <= e < 2 * t,
    ;
}

/// Sum of a sequence of polynomials.
pub open spec fn poly_sum(s: Seq<nat>) -> nat
    decreases s.len(),
{
    if s.len() == 0 {
        0
    } else {
        poly_add(poly_sum(s.drop_last()), s.last())
    }
}

// ---------------------------------------------------------------------------
// Generators
// ---------------------------------------------------------------------------

/// `x` is a power of `g` with an exponent below `m`.
pub open spec fn is_power(p: nat, g: nat, m: nat, x: nat) -> bool {
    exists|i: nat| i < m && #[trigger] gf_pow(p, g, i) == x
}

/// `g` generates the multiplicative group of a field with `2^k` elements: its
/// power with the exponent `2^k - 1` is 1, and none before it but `g^0`.
pub open spec fn is_generator(p: nat, k: nat, g: nat) -> bool {
    let m = (pow2(k) - 1) as nat;
    &&& gf_pow(p, g, m) == 1
    &&& forall|i: nat| 0 < i < m ==> #[trigger] gf_pow(p, g, i) != 1
}

/// Where two powers of an element are equal and one of its positive powers is
/// 1, the power with the difference of the exponents is 1.
pub proof fn lemma_gf_pow_cancel(p: nat, k: nat, g: nat, m: nat, i: nat, j: nat)
    requires
        is_modulus(p, k),
        m > 0,
        gf_pow(p, g, m) == 1,
        i <= j,
        gf_pow(p, g, i) == gf_pow(p, g, j),
    ensures
        gf_pow(p, g, (j - i) as nat) == 1,
{
    lemma_modulus(p, k);
    let u = gf_pow(p, g, i);
    let d = gf_pow(p, g, (j - i) as nat);
    lemma_unit_of_order(p, k, g, m, i);
    lemma_gf_inv_of_unit(p, u);
    let w = gf_inv(p, u);
    // d = (w u) d = w (u d) = w u = 1
    lemma_gf_pow_add(p, k, g, i, (j - i) as nat);
    lemma_gf_pow_bound(p, k, g, (j - i) as nat);
    lemma_gf_mul_identity(p, d);
    lemma_gf_mul_assoc(p, w, u, d);
}

/// The powers of a generator are all the elements but 0: there are as many
/// different powers as there are such elements.
pub proof fn lemma_generator_covers(p: nat, k: nat, g: nat, x: nat)
    requires
        is_modulus(p, k),
        is_generator(p, k, g),
        0 < x < pow2(k),
    ensures
        is_power(p, g, (pow2(k) - 1) as nat, x),
{
    lemma_modulus(p, k);
    let m = (pow2(k) - 1) as nat;
    let exponents = vstd::set_lib::set_int_range(0, m as int);
    let elements = vstd::set_lib::set_int_range(1, pow2(k) as int);
    let f = |i: int| gf_pow(p, g, i as nat) as int;
    let powers = exponents.map(f);
    vstd::set_lib::lemma_int_range(0, m as int);
    vstd::set_lib::lemma_int_range(1, pow2(k) as int);
    assert(vstd::relations::injective_on(f, exponents)) by {
        assert forall|i: int, j: int|
            exponents.contains(i) && exponents.contains(j) && #[trigger] f(i) == #[trigger] f(
                j,
            ) implies i == j by {
            if i < j {
                lemma_gf_pow_cancel(p, k, g, m, i as nat, j as nat);
            } else if j < i {
                lemma_gf_pow_cancel(p, k, g, m, j as nat, i as nat);
            }
        }
    }
    vstd::set_lib::lemma_map_size(exponents, powers, f);
    assert(powers.subset_of(elements)) by {
        assert forall|y: int| powers.contains(y) implies elements.contains(y) by {
            let i = choose|i: int| exponents.contains(i) && y == f(i);
            lemma_gf_pow_bound(p, k, g, i as nat);
            lemma_unit_of_order(p, k, g, m, i as nat);
            lemma_gf_inv_zero(p);
        }
    }
    vstd::set_lib::lemma_subset_equality(powers, elements);
    assert(elements.contains(x as int));
    assert(powers.contains(x as int));
    let i = choose|i: int| exponents.contains(i) && x as int == f(i);
    assert(gf_pow(p, g, i as nat) == x);
}

/// With a generator, every element but 0 is a unit.
pub proof fn lemma_generator_units(p: nat, k: nat, g: nat, x: nat)
    requires
        is_modulus(p, k),
        is_generator(p, k, g),
        0 < x < pow2(k),
    ensures
        is_unit(p, x),
{
    let m = (pow2(k) - 1) as nat;
    lemma_modulus(p, k);
    lemma_generator_covers(p, k, g, x);
    let i = choose|i: nat| i < m && #[trigger] gf_pow(p, g, i) == x;
    lemma_unit_of_order(p, k, g, m, i);
}

// ---------------------------------------------------------------------------
// What the operations of a field are, in one place
// ---------------------------------------------------------------------------

/// The power that a field of order `k` returns for the exponent `b`: exponents
/// count modulo `2^k - 1`, the order of the multiplicative group.
pub open spec fn field_pow(p: nat, k: nat, a: nat, b: nat) -> nat {
    gf_pow(p, a, b % ((pow2(k) - 1) as nat))
}

/// The product in a field is the remainder of the product of polynomials.
pub proof fn lemma_mul_is_reduced_long_mul(p: nat, a: nat, b: nat)
    ensures
        gf_mul(p, a, b) == poly_mod(poly_mul(a, b), p),
{
}

/// The power with the exponent 0 is 1, whatever the element; 0 too.
pub proof fn lemma_pow_zero(p: nat, k: nat, a: nat)
    requires
        is_modulus(p, k),
    ensures
        field_pow(p, k, a, 0) == 1,
{
    lemma_modulus(p, k);
    vstd::arithmetic::div_mod::lemma_small_mod(0, (pow2(k) - 1) as nat);
}

/// The power with the exponent `n` is the power with the exponent `n - 1`,
/// times the element. Where `n` is a multiple of `2^k - 1` the power with the
/// exponent `n` is 1 by the rule for exponents, so the law holds there for the
/// elements whose power with the exponent `2^k - 1` is 1: in a field, all but
/// 0.
pub proof fn lemma_pow_successor(p: nat, k: nat, a: nat, n: nat)
    requires
        is_modulus(p, k),
        n >= 1,
        n % ((pow2(k) - 1) as nat) == 0 ==> gf_pow(p, a, (pow2(k) - 1) as nat) == 1,
    ensures
        field_pow(p, k, a, n) == gf_mul(p, field_pow(p, k, a, (n - 1) as nat), a),
{
    lemma_modulus(p, k);
    let m = (pow2(k) - 1) as nat;
    let e = n % m;
    vstd::arithmetic::div_mod::lemma_mod_bound(n as int, m as int);
    vstd::arithmetic::div_mod::lemma_mod_bound(n as int - 1, m as int);
    vstd::arithmetic::div_mod::lemma_fundamental_div_mod(n as int, m as int);
    let q = n as int / (m as int);
    if e == 0 {
        // n - 1 = m (q - 1) + (m - 1)
        assert(n as int - 1 == (q - 1) * (m as int) + (m - 1)) by (nonlinear_arith)
            requires
                n as int == (m as int) * q + 0,
        ;
        vstd::arithmetic::div_mod::lemma_fundamental_div_mod_converse(
            n as int - 1,
            m as int,
            q - 1,
            m as int - 1,
        );
        vstd::arithmetic::div_mod::lemma_small_mod(0, m);
        assert(gf_pow(p, a, m) == gf_mul(p, gf_pow(p, a, (m - 1) as nat), a));
    } else {
        assert(n as int - 1 == q * (m as int) + (e as int - 1)) by (nonlinear_arith)
            requires
                n as int == (m as int) * q + e as int,
        ;
        vstd::arithmetic::div_mod::lemma_fundamental_div_mod_converse(
            n as int - 1,
            m as int,
            q,
            e as int - 1,
        );
        assert(gf_pow(p, a, e) == gf_mul(p, gf_pow(p, a, (e - 1) as nat), a));
    }
}

/// The exponents `2^k - 1` and `2^k` give 1 and the element itself.
pub proof fn lemma_pow_group_order(p: nat, k: nat, a: nat)
    requires
        is_modulus(p, k),
        k >= 2,
        a < pow2(k),
    ensures
        field_pow(p, k, a, (pow2(k) - 1) as nat) == 1,
        field_pow(p, k, a, pow2(k)) == a,
{
    lemma_modulus(p, k);
    let m = (pow2(k) - 1) as nat;
    vstd::arithmetic::div_mod::lemma_mod_self_0(m as int);
    vstd::arithmetic::div_mod::lemma_mod_add_multiples_vanish(1, m as int);
    lemma_pow2_unfold(k);
    lemma_pow2_unfold((k - 1) as nat);
    lemma_pow2_pos((k - 2) as nat);
    vstd::arithmetic::div_mod::lemma_small_mod(1, m);
    lemma_gf_pow_one(p, k, a);
}

// ---------------------------------------------------------------------------
// Irreducible polynomials
// ---------------------------------------------------------------------------

/// `p` has no divisor but 1 and the polynomials of its own degree.
pub open spec fn is_irreducible(p: nat) -> bool {
    &&& p >= 2
    &&& forall|d: nat| #[trigger] poly_divides(d, p) ==> d == 1 || poly_deg(d) == poly_deg(p)
}

/// `d` divides both `u` and `v`, and is `s * u + t * v`.
pub open spec fn is_gcd_with(d: nat, u: nat, v: nat, s: nat, t: nat) -> bool {
    &&& poly_divides(d, u)
    &&& poly_divides(d, v)
    &&& d == poly_add(poly_mul(s, u), poly_mul(t, v))
}

/// Two polynomials, the second not 0, have a common divisor that is a
/// combination of the two.
pub proof fn lemma_gcd(u: nat, v: nat) -> (r: (nat, nat, nat))
    requires
        v != 0,
    ensures
        is_gcd_with(r.0, u, v, r.1, r.2),
    decreases v,
{
    let q = poly_div(u, v);
    let rem = poly_mod(u, v);
    lemma_div_mod(u, v);
    lemma_mod_self(v);
    lemma_mod_bound(u, v);
    lemma_deg_bounds(v);
    if rem == 0 {
        lemma_mul_zero(u);
        lemma_mul_one(v);
        lemma_add_zero(v);
        (v, 0, 1)
    } else {
        let (d, s1, t1) = lemma_gcd(v, rem);
        // d divides q v + rem = u
        lemma_mod_multiple(q, v);
        lemma_mod_mul_right(q, v, d);
        lemma_mul_zero(q);
        assert(poly_mod(0, d) == 0);
        lemma_mod_add(poly_mul(q, v), rem, d);
        lemma_add_zero(0);
        // d = s1 v + t1 rem = t1 u + (s1 + t1 q) v
        let t = poly_add(s1, poly_mul(t1, q));
        lemma_mul_distrib_right(t1, poly_mul(q, v), rem);
        lemma_mul_assoc(t1, q, v);
        lemma_mul_distrib_left(s1, poly_mul(t1, q), v);
        let x = poly_mul(poly_mul(t1, q), v);
        crate::poly::lemma_add_cancel(poly_mul(t1, rem), x);
        crate::poly::lemma_add_comm(poly_mul(t1, rem), x);
        crate::poly::lemma_add_comm(x, poly_mul(t1, rem));
        crate::poly::lemma_add_assoc(poly_mul(s1, v), x, poly_add(x, poly_mul(t1, rem)));
        crate::poly::lemma_add_assoc(x, x, poly_mul(t1, rem));
        crate::poly::lemma_add_self(x);
        lemma_add_zero(poly_mul(t1, rem));
        crate::poly::lemma_add_comm(poly_mul(t1, u), poly_mul(t, v));
        (d, t1, t)
    }
}

/// Modulo an irreducible polynomial every element but 0 is a unit: the
/// elements form a field.
pub proof fn lemma_irreducible_units(p: nat, k: nat, a: nat)
    requires
        is_modulus(p, k),
        is_irreducible(p),
        0 < a < pow2(k),
    ensures
        is_unit(p, a),
{
    lemma_modulus(p, k);
    let (d, s, t) = lemma_gcd(p, a);
    // a divisor of a has at most the degree of a, which is below k
    if poly_deg(d) == k {
        lemma_mod_small(a, d);
    }
    assert(d == 1);
    // 1 = s p + t a, so t a leaves the remainder 1
    lemma_mod_add(poly_mul(s, p), poly_mul(t, a), p);
    lemma_mod_multiple(s, p);
    lemma_add_zero(poly_mod(poly_mul(t, a), p));
    lemma_pow2_unfold(k);
    lemma_pow2_pos((k - 1) as nat);
    lemma_mod_small(1, p);
    lemma_mod_mul_left(t, a, p);
    lemma_mod_bound(t, p);
    lemma_mul_comm(poly_mod(t, p), a);
    assert(is_inverse(p, a, poly_mod(t, p)));
}

} // verus!
