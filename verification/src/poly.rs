//! Polynomials over GF(2), held as natural numbers.
//!
//! Bit `i` of a number is the coefficient of `x^i`. Addition of polynomials is
//! the bitwise exclusive or of the numbers, multiplication by `x` is doubling,
//! and the degree is the index of the highest set bit. Everything in this
//! module is ghost: definitions by recursion on the binary digits, and the
//! ring laws proved from them by induction.

use vstd::arithmetic::power2::{lemma_pow2_pos, lemma_pow2_unfold, pow2};
use vstd::prelude::*;

verus! {

/// Sum of two polynomials: the exclusive or of their coefficients.
pub open spec fn poly_add(a: nat, b: nat) -> nat
    decreases a + b,
{
    if a == 0 && b == 0 {
        0
    } else {
        2 * poly_add(a / 2, b / 2) + (a % 2 + b % 2) % 2
    }
}

/// The polynomial `a` when `c` is odd, the zero polynomial otherwise.
pub open spec fn poly_scale(c: nat, a: nat) -> nat {
    if c % 2 == 1 {
        a
    } else {
        0
    }
}

/// Product of two polynomials, without any reduction.
pub open spec fn poly_mul(a: nat, b: nat) -> nat
    decreases b,
{
    if b == 0 {
        0
    } else {
        poly_add(poly_scale(b, a), 2 * poly_mul(a, b / 2))
    }
}

/// Degree of a polynomial; the zero polynomial is given degree 0.
pub open spec fn poly_deg(a: nat) -> nat
    decreases a,
{
    if a <= 1 {
        0
    } else {
        1 + poly_deg(a / 2)
    }
}

/// One step of reduction: `t`, of degree at most that of `p`, loses its leading
/// term when it has one of that degree.
pub open spec fn poly_reduce_top(t: nat, p: nat) -> nat {
    if t >= pow2(poly_deg(p)) {
        poly_add(t, p)
    } else {
        t
    }
}

/// Remainder of `a` on division by the polynomial `p`, for `p != 0`.
pub open spec fn poly_mod(a: nat, p: nat) -> nat
    decreases a,
{
    if a == 0 {
        0
    } else {
        poly_reduce_top(2 * poly_mod(a / 2, p) + a % 2, p)
    }
}

/// `d` divides `a`.
pub open spec fn poly_divides(d: nat, a: nat) -> bool {
    d != 0 && poly_mod(a, d) == 0
}

// ---------------------------------------------------------------------------
// Addition
// ---------------------------------------------------------------------------

/// Both halves of the recursive description of a sum, for all arguments.
pub proof fn lemma_add_unfold(a: nat, b: nat)
    ensures
        poly_add(a, b) / 2 == poly_add(a / 2, b / 2),
        poly_add(a, b) % 2 == (a % 2 + b % 2) % 2,
        poly_add(a, b) == 2 * poly_add(a / 2, b / 2) + (a % 2 + b % 2) % 2,
{
    if a == 0 && b == 0 {
        assert(poly_add(0, 0) == 0);
    }
}

pub proof fn lemma_add_zero(a: nat)
    ensures
        poly_add(a, 0) == a,
        poly_add(0, a) == a,
    decreases a,
{
    if a != 0 {
        lemma_add_zero(a / 2);
    }
}

pub proof fn lemma_add_self(a: nat)
    ensures
        poly_add(a, a) == 0,
    decreases a,
{
    if a != 0 {
        lemma_add_self(a / 2);
    }
}

pub proof fn lemma_add_comm(a: nat, b: nat)
    ensures
        poly_add(a, b) == poly_add(b, a),
    decreases a + b,
{
    if a != 0 || b != 0 {
        lemma_add_comm(a / 2, b / 2);
    }
}

pub proof fn lemma_add_assoc(a: nat, b: nat, c: nat)
    ensures
        poly_add(poly_add(a, b), c) == poly_add(a, poly_add(b, c)),
    decreases a + b + c,
{
    if a != 0 || b != 0 || c != 0 {
        lemma_add_assoc(a / 2, b / 2, c / 2);
        lemma_add_unfold(a, b);
        lemma_add_unfold(b, c);
        lemma_add_unfold(poly_add(a, b), c);
        lemma_add_unfold(a, poly_add(b, c));
    }
}

/// A sum is zero only when its two terms are equal.
pub proof fn lemma_add_is_zero(a: nat, b: nat)
    requires
        poly_add(a, b) == 0,
    ensures
        a == b,
    decreases a + b,
{
    if a != 0 || b != 0 {
        lemma_add_unfold(a, b);
        lemma_add_is_zero(a / 2, b / 2);
    }
}

/// Adding the same polynomial twice gives back what one started with.
pub proof fn lemma_add_cancel(a: nat, b: nat)
    ensures
        poly_add(poly_add(a, b), b) == a,
{
    lemma_add_assoc(a, b, b);
    lemma_add_self(b);
    lemma_add_zero(a);
}

/// The two middle terms of a sum of four change places.
pub proof fn lemma_add_swap_inner(a: nat, b: nat, c: nat, d: nat)
    ensures
        poly_add(poly_add(a, b), poly_add(c, d)) == poly_add(poly_add(a, c), poly_add(b, d)),
{
    lemma_add_assoc(a, b, poly_add(c, d));
    lemma_add_assoc(b, c, d);
    lemma_add_comm(b, c);
    lemma_add_assoc(c, b, d);
    lemma_add_assoc(a, c, poly_add(b, d));
}

/// Doubling distributes over a sum, also when coefficients of `x^0` are present.
pub proof fn lemma_add_double(a: nat, b: nat, i: nat, j: nat)
    requires
        i <= 1,
        j <= 1,
    ensures
        poly_add(2 * a + i, 2 * b + j) == 2 * poly_add(a, b) + (i + j) % 2,
{
    lemma_add_unfold(2 * a + i, 2 * b + j);
    assert((2 * a + i) / 2 == a);
    assert((2 * b + j) / 2 == b);
}

/// The low `n` coefficients and the rest are added independently.
pub proof fn lemma_add_split(n: nat, a: nat, x: nat, b: nat, y: nat)
    requires
        a < pow2(n),
        b < pow2(n),
    ensures
        poly_add(a + pow2(n) * x, b + pow2(n) * y) == poly_add(a, b) + pow2(n) * poly_add(x, y),
        poly_add(a, b) < pow2(n),
    decreases n,
{
    if n == 0 {
        assert(pow2(0) == 1) by {
            vstd::arithmetic::power2::lemma2_to64();
        }
        assert(poly_add(0, 0) == 0);
        assert(pow2(0) * x == x) by (nonlinear_arith)
            requires
                pow2(0) == 1,
        ;
        assert(pow2(0) * y == y) by (nonlinear_arith)
            requires
                pow2(0) == 1,
        ;
        assert(pow2(0) * poly_add(x, y) == poly_add(x, y)) by (nonlinear_arith)
            requires
                pow2(0) == 1,
        ;
    } else {
        let m = (n - 1) as nat;
        let t = pow2(m);
        lemma_pow2_unfold(n);
        lemma_pow2_pos(m);
        lemma_add_split(m, a / 2, x, b / 2, y);
        let aa = a + pow2(n) * x;
        let bb = b + pow2(n) * y;
        assert(pow2(n) * x == 2 * (t * x)) by (nonlinear_arith)
            requires
                pow2(n) == 2 * t,
        ;
        assert(pow2(n) * y == 2 * (t * y)) by (nonlinear_arith)
            requires
                pow2(n) == 2 * t,
        ;
        assert(pow2(n) * poly_add(x, y) == 2 * (t * poly_add(x, y))) by (nonlinear_arith)
            requires
                pow2(n) == 2 * t,
        ;
        assert(aa / 2 == a / 2 + t * x);
        assert(bb / 2 == b / 2 + t * y);
        assert(aa % 2 == a % 2);
        assert(bb % 2 == b % 2);
        lemma_add_unfold(aa, bb);
        lemma_add_unfold(a, b);
    }
}

/// A sum is below every power of two that both terms are below.
pub proof fn lemma_add_bound(n: nat, a: nat, b: nat)
    requires
        a < pow2(n),
        b < pow2(n),
    ensures
        poly_add(a, b) < pow2(n),
{
    lemma_add_split(n, a, 0, b, 0);
}

/// Two polynomials of the same degree `n` have a sum of lower degree.
pub proof fn lemma_add_same_top(n: nat, a: nat, b: nat)
    requires
        pow2(n) <= a < 2 * pow2(n),
        pow2(n) <= b < 2 * pow2(n),
    ensures
        poly_add(a, b) < pow2(n),
        poly_add(a, b) == poly_add((a - pow2(n)) as nat, (b - pow2(n)) as nat),
{
    let t = pow2(n);
    lemma_add_split(n, (a - t) as nat, 1, (b - t) as nat, 1);
    lemma_add_self(1);
    assert(t * 1 == t) by (nonlinear_arith);
    assert(t * 0 == 0) by (nonlinear_arith);
}

/// A polynomial of degree `n` plus one of lower degree has degree `n`.
pub proof fn lemma_add_one_top(n: nat, a: nat, b: nat)
    requires
        pow2(n) <= a < 2 * pow2(n),
        b < pow2(n),
    ensures
        pow2(n) <= poly_add(a, b) < 2 * pow2(n),
        poly_add(a, b) == pow2(n) + poly_add((a - pow2(n)) as nat, b),
{
    let t = pow2(n);
    lemma_add_split(n, (a - t) as nat, 1, b, 0);
    lemma_add_zero(1);
    assert(t * 1 == t) by (nonlinear_arith);
    assert(t * 0 == 0) by (nonlinear_arith);
}

/// Where no coefficient is shared, the sum of polynomials is the sum of numbers.
pub proof fn lemma_add_disjoint(n: nat, a: nat, x: nat)
    requires
        a < pow2(n),
    ensures
        poly_add(a, pow2(n) * x) == a + pow2(n) * x,
        poly_add(pow2(n) * x, a) == a + pow2(n) * x,
{
    lemma_pow2_pos(n);
    lemma_add_split(n, a, 0, 0, x);
    lemma_add_zero(a);
    lemma_add_zero(x);
    assert(pow2(n) * 0 == 0) by (nonlinear_arith);
    lemma_add_comm(a, pow2(n) * x);
}

// ---------------------------------------------------------------------------
// Multiplication
// ---------------------------------------------------------------------------

pub proof fn lemma_scale_add(c: nat, a: nat, b: nat)
    ensures
        poly_scale(c, poly_add(a, b)) == poly_add(poly_scale(c, a), poly_scale(c, b)),
{
    lemma_add_zero(0);
}

/// The recursive description of a product, for all arguments.
pub proof fn lemma_mul_unfold(a: nat, b: nat)
    ensures
        poly_mul(a, b) == poly_add(poly_scale(b, a), 2 * poly_mul(a, b / 2)),
{
    if b == 0 {
        assert(poly_mul(a, 0) == 0);
        lemma_add_zero(0);
    }
}

pub proof fn lemma_mul_zero(a: nat)
    ensures
        poly_mul(a, 0) == 0,
        poly_mul(0, a) == 0,
    decreases a,
{
    if a != 0 {
        lemma_mul_zero(a / 2);
        lemma_add_zero(0);
    }
}

pub proof fn lemma_mul_one(a: nat)
    ensures
        poly_mul(a, 1) == a,
        poly_mul(1, a) == a,
    decreases a,
{
    assert(poly_mul(a, 1) == poly_add(a, 2 * poly_mul(a, 0)));
    lemma_add_zero(a);
    if a != 0 {
        lemma_mul_one(a / 2);
        lemma_add_double(0, a / 2, a % 2, 0);
        lemma_add_zero(a / 2);
    }
}

/// Multiplying the right factor by `x`, with or without a constant term added.
pub proof fn lemma_mul_double_right(a: nat, b: nat)
    ensures
        poly_mul(a, 2 * b) == 2 * poly_mul(a, b),
        poly_mul(a, 2 * b + 1) == poly_add(a, 2 * poly_mul(a, b)),
{
    lemma_mul_unfold(a, 2 * b);
    lemma_mul_unfold(a, 2 * b + 1);
    assert((2 * b) / 2 == b);
    assert((2 * b + 1) / 2 == b);
    lemma_add_zero(2 * poly_mul(a, b));
}

pub proof fn lemma_mul_double_left(a: nat, b: nat)
    ensures
        poly_mul(2 * a, b) == 2 * poly_mul(a, b),
    decreases b,
{
    if b != 0 {
        lemma_mul_double_left(a, b / 2);
        lemma_add_double(poly_scale(b, a), 2 * poly_mul(a, b / 2), 0, 0);
    }
}

/// Multiplication by `x^n` is multiplication of the number by `2^n`.
pub proof fn lemma_mul_pow2(a: nat, n: nat)
    ensures
        poly_mul(a, pow2(n)) == a * pow2(n),
        poly_mul(pow2(n), a) == a * pow2(n),
    decreases n,
{
    if n == 0 {
        vstd::arithmetic::power2::lemma2_to64();
        lemma_mul_one(a);
    } else {
        let t = pow2((n - 1) as nat);
        lemma_pow2_unfold(n);
        lemma_mul_pow2(a, (n - 1) as nat);
        lemma_mul_double_right(a, t);
        lemma_mul_double_left(t, a);
        assert(a * (2 * t) == 2 * (a * t)) by (nonlinear_arith);
    }
}

pub proof fn lemma_mul_distrib_left(a: nat, c: nat, b: nat)
    ensures
        poly_mul(poly_add(a, c), b) == poly_add(poly_mul(a, b), poly_mul(c, b)),
    decreases b,
{
    if b == 0 {
        lemma_add_zero(0);
    } else {
        let h = b / 2;
        lemma_mul_distrib_left(a, c, h);
        lemma_scale_add(b, a, c);
        lemma_add_double(poly_mul(a, h), poly_mul(c, h), 0, 0);
        lemma_add_swap_inner(
            poly_scale(b, a),
            poly_scale(b, c),
            2 * poly_mul(a, h),
            2 * poly_mul(c, h),
        );
    }
}

pub proof fn lemma_mul_comm(a: nat, b: nat)
    ensures
        poly_mul(a, b) == poly_mul(b, a),
    decreases b,
{
    if b == 0 {
        lemma_mul_zero(a);
    } else {
        let h = b / 2;
        lemma_mul_comm(a, h);
        lemma_mul_double_left(h, a);
        // b is its constant term plus x times the rest
        lemma_add_double(0, h, b % 2, 0);
        lemma_add_zero(h);
        assert(poly_add(b % 2, 2 * h) == b);
        lemma_mul_distrib_left(b % 2, 2 * h, a);
        if b % 2 == 1 {
            lemma_mul_one(a);
        } else {
            lemma_mul_zero(a);
        }
    }
}

pub proof fn lemma_mul_distrib_right(a: nat, b: nat, c: nat)
    ensures
        poly_mul(a, poly_add(b, c)) == poly_add(poly_mul(a, b), poly_mul(a, c)),
{
    lemma_mul_comm(a, poly_add(b, c));
    lemma_mul_distrib_left(b, c, a);
    lemma_mul_comm(a, b);
    lemma_mul_comm(a, c);
}

pub proof fn lemma_mul_scale(c: nat, a: nat, b: nat)
    ensures
        poly_mul(a, poly_scale(c, b)) == poly_scale(c, poly_mul(a, b)),
        poly_mul(poly_scale(c, a), b) == poly_scale(c, poly_mul(a, b)),
{
    lemma_mul_zero(a);
    lemma_mul_zero(b);
}

pub proof fn lemma_mul_assoc(a: nat, b: nat, c: nat)
    ensures
        poly_mul(poly_mul(a, b), c) == poly_mul(a, poly_mul(b, c)),
    decreases c,
{
    if c == 0 {
        lemma_mul_zero(a);
    } else {
        let h = c / 2;
        lemma_mul_assoc(a, b, h);
        // (ab)c = c0.(ab) + x.((ab)h) = a.(c0.b) + a.(x.(bh)) = a.(c0.b + x.(bh)) = a(bc)
        lemma_mul_scale(c, a, b);
        lemma_mul_double_right(a, poly_mul(b, h));
        lemma_mul_distrib_right(a, poly_scale(c, b), 2 * poly_mul(b, h));
    }
}

/// The product of polynomials below `2^m` and `2^n` is below `2^(m+n)`.
pub proof fn lemma_mul_bound(m: nat, n: nat, a: nat, b: nat)
    requires
        a < pow2(m),
        b < pow2(n),
    ensures
        poly_mul(a, b) < pow2(m + n),
    decreases n,
{
    lemma_pow2_pos(m + n);
    if b != 0 {
        if n == 0 {
            vstd::arithmetic::power2::lemma2_to64();
        } else {
            lemma_pow2_unfold(n);
            lemma_pow2_unfold(m + n);
            lemma_mul_bound(m, (n - 1) as nat, a, b / 2);
            vstd::arithmetic::power2::lemma_pow2_strictly_increases(m, m + n);
            lemma_add_bound(m + n, poly_scale(b, a), 2 * poly_mul(a, b / 2));
        }
    }
}

// ---------------------------------------------------------------------------
// Degree
// ---------------------------------------------------------------------------

/// A polynomial other than zero lies between `2^deg` and `2^(deg+1)`.
pub proof fn lemma_deg_bounds(a: nat)
    requires
        a != 0,
    ensures
        pow2(poly_deg(a)) <= a < 2 * pow2(poly_deg(a)),
    decreases a,
{
    if a <= 1 {
        vstd::arithmetic::power2::lemma2_to64();
    } else {
        lemma_deg_bounds(a / 2);
        lemma_pow2_unfold(poly_deg(a));
    }
}

/// The degree is the only `n` with `2^n <= a < 2^(n+1)`.
pub proof fn lemma_deg_unique(a: nat, n: nat)
    requires
        pow2(n) <= a < 2 * pow2(n),
    ensures
        poly_deg(a) == n,
    decreases a,
{
    lemma_pow2_pos(n);
    if n == 0 {
        vstd::arithmetic::power2::lemma2_to64();
    } else {
        lemma_pow2_unfold(n);
        lemma_deg_unique(a / 2, (n - 1) as nat);
    }
}

/// A polynomial below `2^n` has degree below `n`, when `n > 0`.
pub proof fn lemma_deg_below(a: nat, n: nat)
    requires
        a < pow2(n),
        n > 0,
    ensures
        poly_deg(a) < n,
    decreases n,
{
    if a > 1 {
        lemma_pow2_unfold(n);
        if n == 1 {
            vstd::arithmetic::power2::lemma2_to64();
        } else {
            lemma_deg_below(a / 2, (n - 1) as nat);
        }
    }
}

// ---------------------------------------------------------------------------
// Remainder
// ---------------------------------------------------------------------------

/// The recursive description of a remainder, for all arguments.
pub proof fn lemma_mod_unfold(a: nat, p: nat)
    requires
        p != 0,
    ensures
        poly_mod(a, p) == poly_reduce_top(2 * poly_mod(a / 2, p) + a % 2, p),
{
    lemma_pow2_pos(poly_deg(p));
}

/// A remainder has lower degree than the modulus.
pub proof fn lemma_mod_bound(a: nat, p: nat)
    requires
        p != 0,
    ensures
        poly_mod(a, p) < pow2(poly_deg(p)),
    decreases a,
{
    let n = poly_deg(p);
    lemma_pow2_pos(n);
    lemma_deg_bounds(p);
    if a != 0 {
        lemma_mod_bound(a / 2, p);
        let t = 2 * poly_mod(a / 2, p) + a % 2;
        if t >= pow2(n) {
            lemma_add_same_top(n, t, p);
        }
    }
}

/// A polynomial of lower degree than the modulus is its own remainder.
pub proof fn lemma_mod_small(a: nat, p: nat)
    requires
        a < pow2(poly_deg(p)),
    ensures
        poly_mod(a, p) == a,
    decreases a,
{
    if a != 0 {
        lemma_mod_small(a / 2, p);
    }
}

pub proof fn lemma_mod_mod(a: nat, p: nat)
    requires
        p != 0,
    ensures
        poly_mod(poly_mod(a, p), p) == poly_mod(a, p),
{
    lemma_mod_bound(a, p);
    lemma_mod_small(poly_mod(a, p), p);
}

/// The reduction step respects sums of polynomials of degree at most that of `p`.
proof fn lemma_reduce_top_add(s: nat, t: nat, p: nat)
    requires
        p != 0,
        s < 2 * pow2(poly_deg(p)),
        t < 2 * pow2(poly_deg(p)),
    ensures
        poly_reduce_top(poly_add(s, t), p) == poly_add(poly_reduce_top(s, p), poly_reduce_top(t, p)),
{
    let n = poly_deg(p);
    lemma_deg_bounds(p);
    if s >= pow2(n) && t >= pow2(n) {
        lemma_add_same_top(n, s, t);
        lemma_add_swap_inner(s, p, t, p);
        lemma_add_self(p);
        lemma_add_zero(poly_add(s, t));
    } else if s >= pow2(n) {
        lemma_add_one_top(n, s, t);
        lemma_add_assoc(s, t, p);
        lemma_add_comm(t, p);
        lemma_add_assoc(s, p, t);
    } else if t >= pow2(n) {
        lemma_add_comm(s, t);
        lemma_add_one_top(n, t, s);
        lemma_add_assoc(s, t, p);
    } else {
        lemma_add_bound(n, s, t);
    }
}

/// The remainder of a sum is the sum of the remainders.
pub proof fn lemma_mod_add(a: nat, b: nat, p: nat)
    requires
        p != 0,
    ensures
        poly_mod(poly_add(a, b), p) == poly_add(poly_mod(a, p), poly_mod(b, p)),
    decreases a + b,
{
    if a == 0 && b == 0 {
        lemma_add_zero(0);
    } else {
        let ra = poly_mod(a / 2, p);
        let rb = poly_mod(b / 2, p);
        lemma_mod_add(a / 2, b / 2, p);
        lemma_mod_bound(a / 2, p);
        lemma_mod_bound(b / 2, p);
        lemma_add_unfold(a, b);
        lemma_add_double(ra, rb, a % 2, b % 2);
        lemma_mod_unfold(poly_add(a, b), p);
        lemma_mod_unfold(a, p);
        lemma_mod_unfold(b, p);
        lemma_reduce_top_add(2 * ra + a % 2, 2 * rb + b % 2, p);
    }
}

/// The modulus itself leaves no remainder.
pub proof fn lemma_mod_self(p: nat)
    requires
        p != 0,
    ensures
        poly_mod(p, p) == 0,
{
    lemma_deg_bounds(p);
    let n = poly_deg(p);
    if p == 1 {
        lemma_add_self(1);
        vstd::arithmetic::power2::lemma2_to64();
        assert(poly_mod(0, p) == 0);
    } else {
        lemma_pow2_unfold(n);
        lemma_mod_small(p / 2, p);
        lemma_add_self(p);
    }
}

/// Multiplying by `x` before or after taking the remainder comes to the same.
pub proof fn lemma_mod_double(a: nat, p: nat)
    requires
        p != 0,
    ensures
        poly_mod(2 * a, p) == poly_mod(2 * poly_mod(a, p), p),
        poly_mod(2 * a, p) == poly_reduce_top(2 * poly_mod(a, p), p),
{
    lemma_mod_unfold(2 * a, p);
    lemma_mod_unfold(2 * poly_mod(a, p), p);
    lemma_mod_mod(a, p);
    assert((2 * a) / 2 == a);
    assert((2 * poly_mod(a, p)) / 2 == poly_mod(a, p));
}

/// Multiplying by `x^n` before or after taking the remainder comes to the same.
pub proof fn lemma_mod_shift(a: nat, n: nat, p: nat)
    requires
        p != 0,
    ensures
        poly_mod(pow2(n) * a, p) == poly_mod(pow2(n) * poly_mod(a, p), p),
    decreases n,
{
    if n == 0 {
        vstd::arithmetic::power2::lemma2_to64();
        assert(pow2(0) * a == a) by (nonlinear_arith)
            requires
                pow2(0) == 1,
        ;
        assert(pow2(0) * poly_mod(a, p) == poly_mod(a, p)) by (nonlinear_arith)
            requires
                pow2(0) == 1,
        ;
        lemma_mod_mod(a, p);
    } else {
        let t = pow2((n - 1) as nat);
        lemma_pow2_unfold(n);
        lemma_mod_shift(a, (n - 1) as nat, p);
        assert(pow2(n) * a == 2 * (t * a)) by (nonlinear_arith)
            requires
                pow2(n) == 2 * t,
        ;
        assert(pow2(n) * poly_mod(a, p) == 2 * (t * poly_mod(a, p))) by (nonlinear_arith)
            requires
                pow2(n) == 2 * t,
        ;
        lemma_mod_double(t * a, p);
        lemma_mod_double(t * poly_mod(a, p), p);
    }
}

/// A factor may be replaced by its remainder before the product is reduced.
pub proof fn lemma_mod_mul_left(a: nat, b: nat, p: nat)
    requires
        p != 0,
    ensures
        poly_mod(poly_mul(a, b), p) == poly_mod(poly_mul(poly_mod(a, p), b), p),
    decreases b,
{
    if b != 0 {
        let h = b / 2;
        let r = poly_mod(a, p);
        lemma_mod_mul_left(a, h, p);
        lemma_mod_add(poly_scale(b, a), 2 * poly_mul(a, h), p);
        lemma_mod_add(poly_scale(b, r), 2 * poly_mul(r, h), p);
        lemma_mod_double(poly_mul(a, h), p);
        lemma_mod_double(poly_mul(r, h), p);
        lemma_mod_mod(a, p);
    }
}

pub proof fn lemma_mod_mul_right(a: nat, b: nat, p: nat)
    requires
        p != 0,
    ensures
        poly_mod(poly_mul(a, b), p) == poly_mod(poly_mul(a, poly_mod(b, p)), p),
{
    lemma_mul_comm(a, b);
    lemma_mul_comm(a, poly_mod(b, p));
    lemma_mod_mul_left(b, a, p);
}

/// Every multiple of the modulus leaves no remainder.
pub proof fn lemma_mod_multiple(q: nat, p: nat)
    requires
        p != 0,
    ensures
        poly_mod(poly_mul(q, p), p) == 0,
        poly_mod(poly_mul(p, q), p) == 0,
{
    lemma_mod_mul_right(q, p, p);
    lemma_mod_self(p);
    lemma_mul_zero(q);
    lemma_mul_comm(q, p);
    assert(poly_mod(0, p) == 0);
}

// ---------------------------------------------------------------------------
// Shifts, degrees of products, quotients
// ---------------------------------------------------------------------------

/// Multiplication by `x^n` distributes over a sum.
pub proof fn lemma_add_double_shift(n: nat, a: nat, b: nat)
    ensures
        poly_add(pow2(n) * a, pow2(n) * b) == pow2(n) * poly_add(a, b),
{
    lemma_pow2_pos(n);
    lemma_add_split(n, 0, a, 0, b);
    assert(poly_add(0, 0) == 0);
}

/// A factor `x^n` may be taken out of either factor of a product.
pub proof fn lemma_mul_shift(n: nat, a: nat, b: nat)
    ensures
        poly_mul(pow2(n) * a, b) == pow2(n) * poly_mul(a, b),
        poly_mul(a, pow2(n) * b) == pow2(n) * poly_mul(a, b),
{
    lemma_mul_pow2(a, n);
    lemma_mul_pow2(b, n);
    lemma_mul_pow2(poly_mul(a, b), n);
    assert(a * pow2(n) == pow2(n) * a) by (nonlinear_arith);
    assert(b * pow2(n) == pow2(n) * b) by (nonlinear_arith);
    assert(poly_mul(a, b) * pow2(n) == pow2(n) * poly_mul(a, b)) by (nonlinear_arith);
    // (x^n a) b = x^n (a b)
    lemma_mul_assoc(pow2(n), a, b);
    // a (x^n b) = a (b x^n) = (a b) x^n
    lemma_mul_assoc(a, b, pow2(n));
}

/// Quotient of `a` on division by the polynomial `p`, for `p != 0`.
pub open spec fn poly_div(a: nat, p: nat) -> nat
    decreases a,
{
    if a == 0 {
        0
    } else {
        2 * poly_div(a / 2, p) + if 2 * poly_mod(a / 2, p) + a % 2 >= pow2(poly_deg(p)) {
            1nat
        } else {
            0nat
        }
    }
}

/// Division with remainder: `a` is the quotient times `p`, plus the remainder.
pub proof fn lemma_div_mod(a: nat, p: nat)
    requires
        p != 0,
    ensures
        a == poly_add(poly_mul(poly_div(a, p), p), poly_mod(a, p)),
    decreases a,
{
    if a == 0 {
        lemma_mul_zero(p);
        lemma_add_zero(0);
    } else {
        let h = a / 2;
        let q = poly_div(h, p);
        let r = poly_mod(h, p);
        let t = 2 * r + a % 2;
        lemma_div_mod(h, p);
        // a = x.h + a0 = x.(q p) + (x.r + a0)
        lemma_add_double(poly_mul(q, p), r, 0, a % 2);
        assert(a == poly_add(2 * poly_mul(q, p), t));
        lemma_mul_double_left(q, p);
        if t >= pow2(poly_deg(p)) {
            // t = p + (t + p), and (2q + 1) p = 2 q p + p
            lemma_add_double(q, 0, 0, 1);
            lemma_add_zero(q);
            lemma_mul_distrib_left(2 * q, 1, p);
            lemma_mul_one(p);
            lemma_add_cancel(t, p);
            lemma_add_comm(poly_add(t, p), p);
            lemma_add_assoc(2 * poly_mul(q, p), p, poly_add(t, p));
        }
    }
}

} // verus!
