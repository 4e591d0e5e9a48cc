//! The fields GF(2^4), GF(2^8), GF(2^16) and GF(2^32): the storage types of
//! their elements, the operations every field offers, and the four plain
//! fields that compute each of them bit by bit.

use crate::bitwise::{field_inv, field_mul, long_mul, reduce};
use crate::gf::{field_pow, gf_inv, gf_mul, gf_pow, is_modulus, is_unit};
use crate::machine::{leading_zeros, lemma_pow2_le, one, zero};
use crate::poly::{poly_add, poly_mod, poly_mul};
use vstd::arithmetic::power2::{lemma_pow2_pos, lemma_pow2_unfold, pow2};
use vstd::prelude::*;

verus! {

/// An unsigned machine integer that stores elements or polynomials.
pub trait ElementStore: Copy + Sized {
    /// The number of bits of the type.
    spec fn width() -> nat;

    /// The number that a value of the type stands for.
    spec fn value(self) -> nat;

    /// A value is a number of `width()` bits, and no type is wider than 64 bits.
    proof fn lemma_value(self)
        ensures
            1 <= Self::width() <= 64,
            self.value() < pow2(Self::width()),
    ;

    /// The value, widened to 64 bits.
    fn to_u64(self) -> (r: u64)
        ensures
            r == self.value(),
    ;

    /// The value of the type that stands for `x`.
    fn from_u64(x: u64) -> (r: Self)
        requires
            x < pow2(Self::width()),
        ensures
            r.value() == x,
    ;
}

impl ElementStore for u8 {
    open spec fn width() -> nat {
        8
    }

    open spec fn value(self) -> nat {
        self as nat
    }

    proof fn lemma_value(self) {
        vstd::arithmetic::power2::lemma2_to64();
    }

    fn to_u64(self) -> (r: u64) {
        self as u64
    }

    fn from_u64(x: u64) -> (r: Self) {
        proof {
            vstd::arithmetic::power2::lemma2_to64();
        }
        x as u8
    }
}

impl ElementStore for u16 {
    open spec fn width() -> nat {
        16
    }

    open spec fn value(self) -> nat {
        self as nat
    }

    proof fn lemma_value(self) {
        vstd::arithmetic::power2::lemma2_to64();
    }

    fn to_u64(self) -> (r: u64) {
        self as u64
    }

    fn from_u64(x: u64) -> (r: Self) {
        proof {
            vstd::arithmetic::power2::lemma2_to64();
        }
        x as u16
    }
}

impl ElementStore for u32 {
    open spec fn width() -> nat {
        32
    }

    open spec fn value(self) -> nat {
        self as nat
    }

    proof fn lemma_value(self) {
        vstd::arithmetic::power2::lemma2_to64();
    }

    fn to_u64(self) -> (r: u64) {
        self as u64
    }

    fn from_u64(x: u64) -> (r: Self) {
        proof {
            vstd::arithmetic::power2::lemma2_to64();
        }
        x as u32
    }
}

impl ElementStore for u64 {
    open spec fn width() -> nat {
        64
    }

    open spec fn value(self) -> nat {
        self as nat
    }

    proof fn lemma_value(self) {
        vstd::arithmetic::power2::lemma2_to64();
        vstd::arithmetic::power2::lemma2_to64_rest();
    }

    fn to_u64(self) -> (r: u64) {
        self
    }

    fn from_u64(x: u64) -> (r: Self) {
        x
    }
}

/// The numbers that the items of a vector stand for.
pub open spec fn values<T: ElementStore>(s: Seq<T>) -> Seq<nat> {
    Seq::new(s.len(), |i: int| s[i].value())
}

/// The products modulo `p` of the items of two vectors in the same place.
pub open spec fn products(p: nat, a: Seq<nat>, b: Seq<nat>) -> Seq<nat> {
    Seq::new(a.len(), |i: int| gf_mul(p, a[i], b[i]))
}

/// Arithmetic in a field GF(2^ORDER). A field type supplies its constants and
/// its polynomial; every operation has a bit-serial default.
pub trait GaloisField: Sized {
    /// Storage of an element.
    type E: ElementStore;

    /// Storage of the field polynomial and of a product that is not reduced.
    type EE: ElementStore;

    /// The field has `2^ORDER` elements.
    const ORDER: u16;

    /// The highest bit of an element.
    const HIGH_BIT: Self::E;

    /// The highest bit of the field polynomial.
    const POLY_BIT: Self::EE;

    /// All the bits of an element.
    const FIELD_MASK: Self::E;

    /// The field polynomial, its highest bit included.
    spec fn modulus(&self) -> nat;

    /// The field value is fit for use: its polynomial has degree `ORDER` and
    /// whatever it has prepared is in order.
    spec fn valid(&self) -> bool;

    /// What every field type has: one of the four orders, storage types wide
    /// enough, and constants that fit the order.
    proof fn lemma_constants()
        ensures
            Self::ORDER == 4 || Self::ORDER == 8 || Self::ORDER == 16 || Self::ORDER == 32,
            Self::ORDER as nat <= <Self::E as ElementStore>::width(),
            2 * Self::ORDER as nat <= <Self::EE as ElementStore>::width(),
            Self::HIGH_BIT.value() == pow2((Self::ORDER - 1) as nat),
            Self::POLY_BIT.value() == pow2(Self::ORDER as nat),
            Self::FIELD_MASK.value() == pow2(Self::ORDER as nat) - 1,
    ;

    /// The polynomial of a valid field value has degree `ORDER`.
    proof fn lemma_valid(&self)
        requires
            self.valid(),
        ensures
            is_modulus(self.modulus(), Self::ORDER as nat),
    ;

    /// The field polynomial without its highest bit.
    fn poly(&self) -> (r: Self::E)
        requires
            self.valid(),
        ensures
            pow2(Self::ORDER as nat) + r.value() == self.modulus(),
    ;

    /// The field polynomial in full.
    fn full_poly(&self) -> (r: Self::EE)
        requires
            self.valid(),
        ensures
            r.value() == self.modulus(),
    ;

    /// Sum of two elements: the exclusive or of their bits.
    fn add(&self, a: Self::E, b: Self::E) -> (r: Self::E)
        ensures
            r.value() == poly_add(a.value(), b.value()),
            r.value() == (a.value() as u64) ^ (b.value() as u64),
    {
        proof {
            a.lemma_value();
            b.lemma_value();
            crate::machine::lemma_xor(a.value() as u64, b.value() as u64);
            crate::poly::lemma_add_bound(
                <Self::E as ElementStore>::width(),
                a.value(),
                b.value(),
            );
        }
        Self::E::from_u64(a.to_u64() ^ b.to_u64())
    }

    /// Difference of two elements, which in characteristic 2 is their sum.
    fn sub(&self, a: Self::E, b: Self::E) -> (r: Self::E)
        ensures
            r.value() == poly_add(a.value(), b.value()),
            r.value() == (a.value() as u64) ^ (b.value() as u64),
    {
        self.add(a, b)
    }

    /// Product of two elements.
    fn mul(&self, a: Self::E, b: Self::E) -> (r: Self::E)
        requires
            self.valid(),
            a.value() < pow2(Self::ORDER as nat),
            b.value() < pow2(Self::ORDER as nat),
        ensures
            r.value() == gf_mul(self.modulus(), a.value(), b.value()),
            r.value() < pow2(Self::ORDER as nat),
    {
        let poly = self.poly();
        proof {
            Self::lemma_constants();
            self.lemma_valid();
            lemma_pow2_le(Self::ORDER as nat, <Self::E as ElementStore>::width());
        }
        let r = field_mul(Self::ORDER as u32, poly.to_u64(), a.to_u64(), b.to_u64());
        Self::E::from_u64(r)
    }

    /// Quotient of two elements: `a` times the inverse of `b`, and so 0 where
    /// `b` is 0.
    fn div(&self, a: Self::E, b: Self::E) -> (r: Self::E)
        requires
            self.valid(),
            a.value() < pow2(Self::ORDER as nat),
            b.value() < pow2(Self::ORDER as nat),
        ensures
            r.value() == gf_mul(self.modulus(), a.value(), gf_inv(self.modulus(), b.value())),
            r.value() < pow2(Self::ORDER as nat),
            b.value() == 0 ==> r.value() == 0,
    {
        proof {
            crate::gf::lemma_gf_inv_zero(self.modulus());
            crate::gf::lemma_gf_mul_zero(self.modulus(), a.value());
        }
        self.mul(a, self.inv(b))
    }

    /// Inverse of an element. 0 has none and gets 0; so does every other
    /// element without inverse, which only a reducible polynomial leaves.
    fn inv(&self, a: Self::E) -> (r: Self::E)
        requires
            self.valid(),
            a.value() < pow2(Self::ORDER as nat),
        ensures
            r.value() == gf_inv(self.modulus(), a.value()),
            r.value() < pow2(Self::ORDER as nat),
            is_unit(self.modulus(), a.value()) ==> gf_mul(self.modulus(), a.value(), r.value())
                == 1,
    {
        let poly = self.poly();
        proof {
            Self::lemma_constants();
            self.lemma_valid();
            lemma_pow2_le(Self::ORDER as nat, <Self::E as ElementStore>::width());
        }
        let r = field_inv(Self::ORDER as u32, poly.to_u64(), a.to_u64());
        Self::E::from_u64(r)
    }

    /// Product of two elements as polynomials, without reduction.
    fn mull(&self, a: Self::E, b: Self::E) -> (r: Self::EE)
        requires
            self.valid(),
            a.value() < pow2(Self::ORDER as nat),
            b.value() < pow2(Self::ORDER as nat),
        ensures
            r.value() == poly_mul(a.value(), b.value()),
            r.value() < pow2(2 * Self::ORDER as nat),
    {
        proof {
            Self::lemma_constants();
            self.lemma_valid();
            lemma_pow2_le(2 * Self::ORDER as nat, <Self::EE as ElementStore>::width());
        }
        let r = long_mul(Self::ORDER as u32, a.to_u64(), b.to_u64());
        Self::EE::from_u64(r)
    }

    /// Remainder of a polynomial of twice the width modulo the field
    /// polynomial.
    fn mod_reduce(&self, a: Self::EE) -> (r: Self::E)
        requires
            self.valid(),
            a.value() < pow2(2 * Self::ORDER as nat),
        ensures
            r.value() == poly_mod(a.value(), self.modulus()),
            r.value() < pow2(Self::ORDER as nat),
    {
        let full = self.full_poly();
        proof {
            Self::lemma_constants();
            self.lemma_valid();
            lemma_pow2_le(Self::ORDER as nat, <Self::E as ElementStore>::width());
        }
        let r = reduce(Self::ORDER as u32, full.to_u64(), a.to_u64());
        Self::E::from_u64(r)
    }

    /// `a` to the power `b`; the exponent counts modulo `2^ORDER - 1`, and the
    /// power with the exponent 0 is 1, also for the element 0.
    fn pow(&self, a: Self::E, b: Self::EE) -> (r: Self::E)
        requires
            self.valid(),
            a.value() < pow2(Self::ORDER as nat),
        ensures
            r.value() == field_pow(self.modulus(), Self::ORDER as nat, a.value(), b.value()),
            r.value() < pow2(Self::ORDER as nat),
    {
        let ghost k = Self::ORDER as nat;
        let ghost p = self.modulus();
        proof {
            Self::lemma_constants();
            self.lemma_valid();
            crate::gf::lemma_modulus(p, k);
            lemma_pow2_le(k, <Self::E as ElementStore>::width());
        }
        let group_order = Self::FIELD_MASK.to_u64();
        let mut e = b.to_u64();
        while e >= group_order
            invariant
                group_order == pow2(k) - 1,
                group_order > 0,
                e as nat % (group_order as nat) == b.value() % (group_order as nat),
            decreases e,
        {
            proof {
                vstd::arithmetic::div_mod::lemma_mod_sub_multiples_vanish(
                    e as int,
                    group_order as int,
                );
            }
            e = e - group_order;
        }
        proof {
            vstd::arithmetic::div_mod::lemma_small_mod(e as nat, group_order as nat);
        }
        if e == zero() {
            return Self::E::from_u64(one());
        }
        // the cursor starts on the highest set bit of the exponent
        let clz = leading_zeros(e);
        let bits = leading_zeros(zero());
        let mut mask: u64 = crate::machine::bit_at(bits - clz - 1);
        let mut result = a;
        let ghost mut j: nat = (63 - clz) as nat;
        proof {
            crate::gf::lemma_gf_pow_start(e as nat, j);
            crate::gf::lemma_gf_pow_one(p, k, a.value());
        }
        loop
            invariant_except_break
                mask == pow2(j),
            invariant
                self.valid(),
                k == Self::ORDER as nat,
                p == self.modulus(),
                is_modulus(p, k),
                a.value() < pow2(k),
                j < 64,
                result.value() < pow2(k),
                result.value() == gf_pow(p, a.value(), e as nat / pow2(j)),
            ensures
                result.value() == gf_pow(p, a.value(), e as nat),
            decreases mask,
        {
            proof {
                crate::machine::lemma_shr_one(mask);
                lemma_pow2_pos(j);
                if j == 0 {
                    vstd::arithmetic::power2::lemma2_to64();
                } else {
                    lemma_pow2_unfold(j);
                    lemma_pow2_pos((j - 1) as nat);
                }
            }
            mask = mask >> 1u64;
            if mask == zero() {
                break ;
            }
            proof {
                crate::gf::lemma_gf_pow_step(p, k, a.value(), e as nat, j);
                crate::machine::lemma_and_bit(e, (j - 1) as nat);
                j = (j - 1) as nat;
            }
            result = self.mul(result, result);
            if e & mask != zero() {
                result = self.mul(result, a)
            }
        }
        result
    }

    /// Sum of the elements of a vector.
    fn vec_sum_elements(&self, v: &[Self::E]) -> (sum: Self::E)
        ensures
            sum.value() == crate::gf::poly_sum(values(v@)),
    {
        proof {
            lemma_pow2_pos(<Self::E as ElementStore>::width());
        }
        let mut sum = Self::E::from_u64(zero());
        let mut i: usize = 0;
        proof {
            assert(values(v@).take(0) =~= Seq::<nat>::empty());
        }
        while i < v.len()
            invariant
                i <= v.len(),
                sum.value() == crate::gf::poly_sum(values(v@).take(i as int)),
            decreases v.len() - i,
        {
            proof {
                assert(values(v@).take(i + 1).drop_last() =~= values(v@).take(i as int));
            }
            sum = self.add(sum, v[i]);
            i = i + 1;
        }
        proof {
            assert(values(v@).take(v.len() as int) =~= values(v@));
        }
        sum
    }

    /// Each element of `dest` becomes its sum with the element of `other` in
    /// the same place.
    fn vec_add_vec_in_place(&self, dest: &mut [Self::E], other: &[Self::E])
        requires
            old(dest).len() == other.len(),
        ensures
            final(dest).len() == old(dest).len(),
            forall|i: int|
                0 <= i < other.len() ==> (#[trigger] final(dest)@[i]).value() == poly_add(
                    old(dest)@[i].value(),
                    other@[i].value(),
                ),
    {
        let n = other.len();
        let mut i: usize = 0;
        while i < n
            invariant
                n == other.len(),
                dest.len() == n,
                i <= n,
                forall|j: int|
                    0 <= j < i ==> (#[trigger] dest@[j]).value() == poly_add(
                        old(dest)@[j].value(),
                        other@[j].value(),
                    ),
                forall|j: int| i <= j < n ==> dest@[j] == old(dest)@[j],
            decreases n - i,
        {
            let x = self.add(dest[i], other[i]);
            dest[i] = x;
            i = i + 1;
        }
    }

    /// Each element of `dest` becomes the sum of the elements of `a` and `b`
    /// in the same place.
    fn vec_add_vecs_giving_other(&self, dest: &mut [Self::E], a: &[Self::E], b: &[Self::E])
        requires
            old(dest).len() == a.len(),
            a.len() == b.len(),
        ensures
            final(dest).len() == old(dest).len(),
            forall|i: int|
                0 <= i < a.len() ==> (#[trigger] final(dest)@[i]).value() == poly_add(
                    a@[i].value(),
                    b@[i].value(),
                ),
    {
        let n = a.len();
        let mut i: usize = 0;
        while i < n
            invariant
                n == a.len(),
                n == b.len(),
                dest.len() == n,
                i <= n,
                forall|j: int|
                    0 <= j < i ==> (#[trigger] dest@[j]).value() == poly_add(
                        a@[j].value(),
                        b@[j].value(),
                    ),
            decreases n - i,
        {
            let x = self.add(a[i], b[i]);
            dest[i] = x;
            i = i + 1;
        }
    }

    /// Each element of `dest` becomes the product of the elements of `a` and
    /// `b` in the same place.
    fn vec_cross_product(&self, dest: &mut [Self::E], a: &[Self::E], b: &[Self::E])
        requires
            self.valid(),
            old(dest).len() == a.len(),
            a.len() == b.len(),
            forall|i: int| 0 <= i < a.len() ==> (#[trigger] a@[i]).value() < pow2(Self::ORDER as nat),
            forall|i: int| 0 <= i < b.len() ==> (#[trigger] b@[i]).value() < pow2(Self::ORDER as nat),
        ensures
            final(dest).len() == old(dest).len(),
            forall|i: int|
                0 <= i < a.len() ==> (#[trigger] final(dest)@[i]).value() == gf_mul(
                    self.modulus(),
                    a@[i].value(),
                    b@[i].value(),
                ),
    {
        let n = a.len();
        let mut i: usize = 0;
        while i < n
            invariant
                self.valid(),
                n == a.len(),
                n == b.len(),
                dest.len() == n,
                i <= n,
                forall|j: int|
                    0 <= j < n ==> (#[trigger] a@[j]).value() < pow2(Self::ORDER as nat),
                forall|j: int|
                    0 <= j < n ==> (#[trigger] b@[j]).value() < pow2(Self::ORDER as nat),
                forall|j: int|
                    0 <= j < i ==> (#[trigger] dest@[j]).value() == gf_mul(
                        self.modulus(),
                        a@[j].value(),
                        b@[j].value(),
                    ),
            decreases n - i,
        {
            let x = self.mul(a[i], b[i]);
            dest[i] = x;
            i = i + 1;
        }
    }

    /// Sum of the products of the elements of `a` and `b` in the same place.
    fn vec_dot_product(&self, a: &[Self::E], b: &[Self::E]) -> (sum: Self::E)
        requires
            self.valid(),
            a.len() == b.len(),
            forall|i: int| 0 <= i < a.len() ==> (#[trigger] a@[i]).value() < pow2(Self::ORDER as nat),
            forall|i: int| 0 <= i < b.len() ==> (#[trigger] b@[i]).value() < pow2(Self::ORDER as nat),
        ensures
            sum.value() == crate::gf::poly_sum(
                products(self.modulus(), values(a@), values(b@)),
            ),
    {
        proof {
            lemma_pow2_pos(<Self::E as ElementStore>::width());
        }
        let n = a.len();
        let ghost all = products(self.modulus(), values(a@), values(b@));
        let mut sum = Self::E::from_u64(zero());
        let mut i: usize = 0;
        proof {
            assert(all.take(0) =~= Seq::<nat>::empty());
        }
        while i < n
            invariant
                self.valid(),
                n == a.len(),
                n == b.len(),
                i <= n,
                all == products(self.modulus(), values(a@), values(b@)),
                forall|j: int|
                    0 <= j < n ==> (#[trigger] a@[j]).value() < pow2(Self::ORDER as nat),
                forall|j: int|
                    0 <= j < n ==> (#[trigger] b@[j]).value() < pow2(Self::ORDER as nat),
                sum.value() == crate::gf::poly_sum(all.take(i as int)),
            decreases n - i,
        {
            proof {
                assert(all.take(i + 1).drop_last() =~= all.take(i as int));
            }
            sum = self.add(sum, self.mul(a[i], b[i]));
            i = i + 1;
        }
        proof {
            assert(all.take(n as int) =~= all);
        }
        sum
    }

    /// Each element of `dest` is multiplied by `a`.
    fn vec_constant_scale_in_place(&self, dest: &mut [Self::E], a: Self::E)
        requires
            self.valid(),
            a.value() < pow2(Self::ORDER as nat),
            forall|i: int|
                0 <= i < old(dest).len() ==> (#[trigger] old(dest)@[i]).value() < pow2(
                    Self::ORDER as nat,
                ),
        ensures
            final(dest).len() == old(dest).len(),
            forall|i: int|
                0 <= i < old(dest).len() ==> (#[trigger] final(dest)@[i]).value() == gf_mul(
                    self.modulus(),
                    old(dest)@[i].value(),
                    a.value(),
                ),
    {
        let n = dest.len();
        let mut i: usize = 0;
        while i < n
            invariant
                self.valid(),
                a.value() < pow2(Self::ORDER as nat),
                dest.len() == n,
                n == old(dest).len(),
                i <= n,
                forall|j: int|
                    0 <= j < i ==> (#[trigger] dest@[j]).value() == gf_mul(
                        self.modulus(),
                        old(dest)@[j].value(),
                        a.value(),
                    ),
                forall|j: int| i <= j < n ==> dest@[j] == old(dest)@[j],
                forall|j: int|
                    0 <= j < n ==> (#[trigger] old(dest)@[j]).value() < pow2(Self::ORDER as nat),
            decreases n - i,
        {
            let x = self.mul(dest[i], a);
            dest[i] = x;
            i = i + 1;
        }
    }

    /// Each element of `dest` is multiplied by `a`, and `b` is added to the
    /// product.
    fn vec_fma_in_place(&self, dest: &mut [Self::E], a: Self::E, b: Self::E)
        requires
            self.valid(),
            a.value() < pow2(Self::ORDER as nat),
            forall|i: int|
                0 <= i < old(dest).len() ==> (#[trigger] old(dest)@[i]).value() < pow2(
                    Self::ORDER as nat,
                ),
        ensures
            final(dest).len() == old(dest).len(),
            forall|i: int|
                0 <= i < old(dest).len() ==> (#[trigger] final(dest)@[i]).value() == poly_add(
                    gf_mul(self.modulus(), old(dest)@[i].value(), a.value()),
                    b.value(),
                ),
    {
        let n = dest.len();
        let mut i: usize = 0;
        while i < n
            invariant
                self.valid(),
                a.value() < pow2(Self::ORDER as nat),
                dest.len() == n,
                n == old(dest).len(),
                i <= n,
                forall|j: int|
                    0 <= j < i ==> (#[trigger] dest@[j]).value() == poly_add(
                        gf_mul(self.modulus(), old(dest)@[j].value(), a.value()),
                        b.value(),
                    ),
                forall|j: int| i <= j < n ==> dest@[j] == old(dest)@[j],
                forall|j: int|
                    0 <= j < n ==> (#[trigger] old(dest)@[j]).value() < pow2(Self::ORDER as nat),
            decreases n - i,
        {
            let x = self.add(self.mul(dest[i], a), b);
            dest[i] = x;
            i = i + 1;
        }
    }

    /// The highest bit of an element.
    fn high_bit(&self) -> (r: Self::E)
        ensures
            r == Self::HIGH_BIT,
    {
        Self::HIGH_BIT
    }

    /// The number of bits of an element.
    fn order(&self) -> (r: u16)
        ensures
            r == Self::ORDER,
    {
        Self::ORDER
    }

    /// All the bits of an element.
    fn field_mask(&self) -> (r: Self::E)
        ensures
            r == Self::FIELD_MASK,
    {
        Self::FIELD_MASK
    }
}

/// GF(2^4), bit by bit. `full` is the field polynomial and `compact` the
/// same without its highest bit.
pub struct F4 {
    pub full: u8,
    pub compact: u8,
}

impl GaloisField for F4 {
    type E = u8;

    type EE = u8;

    const ORDER: u16 = 4;

    const HIGH_BIT: u8 = 0x8;

    const POLY_BIT: u8 = 0x10;

    const FIELD_MASK: u8 = 0xf;

    open spec fn modulus(&self) -> nat {
        self.full as nat
    }

    open spec fn valid(&self) -> bool {
        self.compact < 0x10 && self.full == 0x10 + self.compact
    }

    proof fn lemma_constants()
        ensures
            Self::ORDER == 4,
            Self::HIGH_BIT == 0x8,
            Self::POLY_BIT == 0x10,
            Self::FIELD_MASK == 0xf,
    {
        vstd::arithmetic::power2::lemma2_to64();
        assert(Self::ORDER == 4 && Self::HIGH_BIT == 0x8 && Self::POLY_BIT == 0x10
            && Self::FIELD_MASK == 0xf);
        assert(<u8 as ElementStore>::width() == 8 && <u8 as ElementStore>::width() == 8);
        assert(Self::HIGH_BIT.value() == 0x8 && Self::POLY_BIT.value() == 0x10
            && Self::FIELD_MASK.value() == 0xf);
    }

    proof fn lemma_valid(&self) {
        Self::lemma_constants();
        vstd::arithmetic::power2::lemma2_to64();
        vstd::arithmetic::power2::lemma2_to64_rest();
    }

    fn poly(&self) -> (r: u8)
        ensures
            r == self.compact,
    {
        proof {
            vstd::arithmetic::power2::lemma2_to64();
            assert(Self::ORDER == 4);
            assert(self.compact.value() == self.compact as nat);
        }
        self.compact
    }

    fn full_poly(&self) -> (r: u8)
        ensures
            r == self.full,
    {
        proof {
            assert(self.full.value() == self.full as nat);
        }
        self.full
    }
}

/// A field GF(2^4) with the polynomial `full`, which is `compact` with bit
/// 4 added.
pub fn new_gf4(full: u8, compact: u8) -> (f: F4)
    ensures
        f.full == full,
        f.compact == compact,
{
    F4 { full, compact }
}

/// GF(2^8), bit by bit. `full` is the field polynomial and `compact` the
/// same without its highest bit.
pub struct F8 {
    pub full: u16,
    pub compact: u8,
}

impl GaloisField for F8 {
    type E = u8;

    type EE = u16;

    const ORDER: u16 = 8;

    const HIGH_BIT: u8 = 0x80;

    const POLY_BIT: u16 = 0x100;

    const FIELD_MASK: u8 = 0xff;

    open spec fn modulus(&self) -> nat {
        self.full as nat
    }

    open spec fn valid(&self) -> bool {
        self.full == 0x100 + self.compact
    }

    proof fn lemma_constants()
        ensures
            Self::ORDER == 8,
            Self::HIGH_BIT == 0x80,
            Self::POLY_BIT == 0x100,
            Self::FIELD_MASK == 0xff,
    {
        vstd::arithmetic::power2::lemma2_to64();
        assert(Self::ORDER == 8 && Self::HIGH_BIT == 0x80 && Self::POLY_BIT == 0x100
            && Self::FIELD_MASK == 0xff);
        assert(<u8 as ElementStore>::width() == 8 && <u16 as ElementStore>::width() == 16);
        assert(Self::HIGH_BIT.value() == 0x80 && Self::POLY_BIT.value() == 0x100
            && Self::FIELD_MASK.value() == 0xff);
    }

    proof fn lemma_valid(&self) {
        Self::lemma_constants();
        vstd::arithmetic::power2::lemma2_to64();
        vstd::arithmetic::power2::lemma2_to64_rest();
    }

    fn poly(&self) -> (r: u8)
        ensures
            r == self.compact,
    {
        proof {
            vstd::arithmetic::power2::lemma2_to64();
            assert(Self::ORDER == 8);
            assert(self.compact.value() == self.compact as nat);
        }
        self.compact
    }

    fn full_poly(&self) -> (r: u16)
        ensures
            r == self.full,
    {
        proof {
            assert(self.full.value() == self.full as nat);
        }
        self.full
    }
}

/// A field GF(2^8) with the polynomial `full`, which is `compact` with bit
/// 8 added.
pub fn new_gf8(full: u16, compact: u8) -> (f: F8)
    ensures
        f.full == full,
        f.compact == compact,
{
    F8 { full, compact }
}

/// GF(2^16), bit by bit. `full` is the field polynomial and `compact` the
/// same without its highest bit.
pub struct F16 {
    pub full: u32,
    pub compact: u16,
}

impl GaloisField for F16 {
    type E = u16;

    type EE = u32;

    const ORDER: u16 = 16;

    const HIGH_BIT: u16 = 0x8000;

    const POLY_BIT: u32 = 0x10000;

    const FIELD_MASK: u16 = 0xffff;

    open spec fn modulus(&self) -> nat {
        self.full as nat
    }

    open spec fn valid(&self) -> bool {
        self.full == 0x10000 + self.compact
    }

    proof fn lemma_constants()
        ensures
            Self::ORDER == 16,
            Self::HIGH_BIT == 0x8000,
            Self::POLY_BIT == 0x10000,
            Self::FIELD_MASK == 0xffff,
    {
        vstd::arithmetic::power2::lemma2_to64();
        assert(Self::ORDER == 16 && Self::HIGH_BIT == 0x8000 && Self::POLY_BIT == 0x10000
            && Self::FIELD_MASK == 0xffff);
        assert(<u16 as ElementStore>::width() == 16 && <u32 as ElementStore>::width() == 32);
        assert(Self::HIGH_BIT.value() == 0x8000 && Self::POLY_BIT.value() == 0x10000
            && Self::FIELD_MASK.value() == 0xffff);
    }

    proof fn lemma_valid(&self) {
        Self::lemma_constants();
        vstd::arithmetic::power2::lemma2_to64();
        vstd::arithmetic::power2::lemma2_to64_rest();
    }

    fn poly(&self) -> (r: u16)
        ensures
            r == self.compact,
    {
        proof {
            vstd::arithmetic::power2::lemma2_to64();
            assert(Self::ORDER == 16);
            assert(self.compact.value() == self.compact as nat);
        }
        self.compact
    }

    fn full_poly(&self) -> (r: u32)
        ensures
            r == self.full,
    {
        proof {
            assert(self.full.value() == self.full as nat);
        }
        self.full
    }
}

/// A field GF(2^16) with the polynomial `full`, which is `compact` with bit
/// 16 added.
pub fn new_gf16(full: u32, compact: u16) -> (f: F16)
    ensures
        f.full == full,
        f.compact == compact,
{
    F16 { full, compact }
}

/// GF(2^32), bit by bit. `full` is the field polynomial and `compact` the
/// same without its highest bit.
pub struct F32 {
    pub full: u64,
    pub compact: u32,
}

impl GaloisField for F32 {
    type E = u32;

    type EE = u64;

    const ORDER: u16 = 32;

    const HIGH_BIT: u32 = 0x80000000;

    const POLY_BIT: u64 = 0x100000000;

    const FIELD_MASK: u32 = 0xffffffff;

    open spec fn modulus(&self) -> nat {
        self.full as nat
    }

    open spec fn valid(&self) -> bool {
        self.full == 0x100000000 + self.compact
    }

    proof fn lemma_constants()
        ensures
            Self::ORDER == 32,
            Self::HIGH_BIT == 0x80000000,
            Self::POLY_BIT == 0x100000000,
            Self::FIELD_MASK == 0xffffffff,
    {
        vstd::arithmetic::power2::lemma2_to64();
        vstd::arithmetic::power2::lemma2_to64_rest();
        assert(Self::ORDER == 32 && Self::HIGH_BIT == 0x80000000 && Self::POLY_BIT == 0x100000000
            && Self::FIELD_MASK == 0xffffffff);
        assert(<u32 as ElementStore>::width() == 32 && <u64 as ElementStore>::width() == 64);
        assert(Self::HIGH_BIT.value() == 0x80000000 && Self::POLY_BIT.value() == 0x100000000
            && Self::FIELD_MASK.value() == 0xffffffff);
    }

    proof fn lemma_valid(&self) {
        Self::lemma_constants();
        vstd::arithmetic::power2::lemma2_to64();
        vstd::arithmetic::power2::lemma2_to64_rest();
    }

    fn poly(&self) -> (r: u32)
        ensures
            r == self.compact,
    {
        proof {
            vstd::arithmetic::power2::lemma2_to64();
        vstd::arithmetic::power2::lemma2_to64_rest();
            assert(Self::ORDER == 32);
            assert(self.compact.value() == self.compact as nat);
        }
        self.compact
    }

    fn full_poly(&self) -> (r: u64)
        ensures
            r == self.full,
    {
        proof {
            assert(self.full.value() == self.full as nat);
        }
        self.full
    }
}

/// A field GF(2^32) with the polynomial `full`, which is `compact` with bit
/// 32 added.
pub fn new_gf32(full: u64, compact: u32) -> (f: F32)
    ensures
        f.full == full,
        f.compact == compact,
{
    F32 { full, compact }
}

} // verus!
