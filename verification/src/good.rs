//! Fields that answer from tables prepared when the field is made.
//!
//! Each of them computes what the bit-serial field with the same polynomial
//! computes: the operations keep the contracts of [`GaloisField`], which name
//! the result.

use crate::field::{new_gf16, new_gf4, ElementStore, GaloisField, F16, F4, F8};
use crate::mull::MullTable;
use crate::poly::{poly_add, poly_mod, poly_mul};
use crate::gf::{gf_inv, gf_mul, gf_pow, is_generator, is_inverse, is_modulus, is_unit};
use crate::machine::{lemma_pow2_fits, lemma_pow2_le, zero};
use vstd::arithmetic::power2::{lemma_pow2_pos, pow2};
use vstd::prelude::*;

verus! {

/// The products of all pairs of elements of a small field, row by row.
pub struct FullMulLUT<G: GaloisField> {
    table: Vec<G::E>,
    modulus: Ghost<nat>,
}

impl<G: GaloisField> FullMulLUT<G> {
    /// The polynomial of the field whose products the table holds.
    pub closed spec fn modulus(&self) -> nat {
        self.modulus@
    }

    /// The table holds the products of all pairs of elements of a field of
    /// order `G::ORDER`, the row of the left factor first.
    pub closed spec fn wf(&self) -> bool {
        let p = self.modulus@;
        &&& G::ORDER <= 8
        &&& self.table@.len() == pow2(G::ORDER as nat) * pow2(G::ORDER as nat)
        &&& forall|a: nat, b: nat|
            a < pow2(G::ORDER as nat) && b < pow2(G::ORDER as nat) ==> (#[trigger] self.table@[(
            a * pow2(G::ORDER as nat) + b) as int]).value() == gf_mul(p, a, b)
    }

    /// The table of the field `f`, filled by its own multiplication. It has
    /// `4^ORDER` entries, and orders above 8 are left out.
    pub fn new(f: &G) -> (lut: Self)
        requires
            f.valid(),
            G::ORDER <= 8,
        ensures
            lut.wf(),
            lut.modulus() == f.modulus(),
    {
        let ghost k = G::ORDER as nat;
        let ghost p = f.modulus();
        proof {
            G::lemma_constants();
            f.lemma_valid();
            lemma_pow2_fits(k);
            vstd::arithmetic::power2::lemma2_to64();
            lemma_pow2_le(k, 8);
            lemma_pow2_le(k, <G::E as ElementStore>::width());
        }
        let size: u64 = crate::machine::bit_at(f.order() as u32);
        proof {
            assert(size * size <= 65536) by (nonlinear_arith)
                requires
                    size <= 256,
            ;
        }
        let mut v: Vec<G::E> = Vec::with_capacity((size * size) as usize);
        // rows belong to the left factor
        let mut row: u64 = zero();
        while row < size
            invariant
                f.valid(),
                k == G::ORDER as nat,
                p == f.modulus(),
                size == pow2(k),
                size <= 256,
                pow2(k) <= pow2(<G::E as ElementStore>::width()),
                row <= size,
                v@.len() == row * size,
                forall|a: nat, b: nat|
                    a < row && b < size ==> (#[trigger] v@[(a * size + b) as int]).value()
                        == gf_mul(p, a, b),
            decreases size - row,
        {
            let mut col: u64 = zero();
            while col < size
                invariant
                    f.valid(),
                    k == G::ORDER as nat,
                    p == f.modulus(),
                    size == pow2(k),
                    size <= 256,
                    pow2(k) <= pow2(<G::E as ElementStore>::width()),
                    row < size,
                    col <= size,
                    v@.len() == row * size + col,
                    forall|a: nat, b: nat|
                        a < row && b < size ==> (#[trigger] v@[(a * size + b) as int]).value()
                            == gf_mul(p, a, b),
                    forall|b: nat|
                        b < col ==> (#[trigger] v@[(row * size + b) as int]).value() == gf_mul(
                            p,
                            row as nat,
                            b,
                        ),
                decreases size - col,
            {
                let prod = f.mul(G::E::from_u64(row), G::E::from_u64(col));
                let ghost before = v@;
                v.push(prod);
                proof {
                    assert forall|a: nat, b: nat| a < row && b < size implies (#[trigger] v@[(a
                        * size + b) as int]).value() == gf_mul(p, a, b) by {
                        assert(a * size + b < row * size) by (nonlinear_arith)
                            requires
                                a < row,
                                b < size,
                        ;
                        assert(v@[(a * size + b) as int] == before[(a * size + b) as int]);
                    }
                    assert forall|b: nat| b < col + 1 implies (#[trigger] v@[(row * size
                        + b) as int]).value() == gf_mul(p, row as nat, b) by {
                        if b < col {
                            assert(v@[(row * size + b) as int] == before[(row * size + b) as int]);
                        }
                    }
                }
                col = col + 1;
            }
            proof {
                assert((row + 1) * size == row * size + size) by (nonlinear_arith);
                assert forall|a: nat, b: nat| a < row + 1 && b < size implies (#[trigger] v@[(a
                    * size + b) as int]).value() == gf_mul(p, a, b) by {
                    if a == row {
                        assert(v@[(row * size + b) as int].value() == gf_mul(p, row as nat, b));
                    }
                }
            }
            row = row + 1;
        }
        FullMulLUT { table: v, modulus: Ghost(p) }
    }

    /// The product of `a` and `b`, read from the table.
    pub fn mul(&self, a: G::E, b: G::E) -> (r: G::E)
        requires
            self.wf(),
            a.value() < pow2(G::ORDER as nat),
            b.value() < pow2(G::ORDER as nat),
        ensures
            r.value() == gf_mul(self.modulus(), a.value(), b.value()),
    {
        let ghost k = G::ORDER as nat;
        proof {
            lemma_pow2_fits(k);
            vstd::arithmetic::power2::lemma2_to64();
            lemma_pow2_le(k, 8);
            assert(a.value() * pow2(k) + b.value() < pow2(k) * pow2(k)) by (nonlinear_arith)
                requires
                    a.value() < pow2(k),
                    b.value() < pow2(k),
            ;
            assert(a.value() * pow2(k) <= 255 * 256) by (nonlinear_arith)
                requires
                    a.value() < pow2(k),
                    pow2(k) <= 256,
            ;
            crate::machine::lemma_shl(a.value() as u64, G::ORDER as u64);
        }
        let index: u64 = (a.to_u64() << (G::ORDER as u64)) + b.to_u64();
        self.table[index as usize]
    }
}

/// The inverses of the elements 0 to `max` of the field `f`, appended to `v`
/// in this order; the inverse of 0 is 0.
pub fn fill_inverse<T: GaloisField>(f: &T, v: &mut Vec<T::E>, max: usize)
    requires
        f.valid(),
        max < pow2(T::ORDER as nat),
    ensures
        final(v)@.len() == old(v)@.len() + max + 1,
        forall|i: int| 0 <= i < old(v)@.len() ==> final(v)@[i] == old(v)@[i],
        forall|a: nat|
            a <= max ==> (#[trigger] final(v)@[(old(v)@.len() + a) as int]).value() == gf_inv(
                f.modulus(),
                a,
            ),
{
    let ghost p = f.modulus();
    let ghost k = T::ORDER as nat;
    let ghost base = v@.len();
    proof {
        T::lemma_constants();
        f.lemma_valid();
        lemma_pow2_fits(k);
        lemma_pow2_pos(<T::E as ElementStore>::width());
        lemma_pow2_le(k, <T::E as ElementStore>::width());
        crate::gf::lemma_gf_inv_zero(p);
    }
    let mut elem: u64 = zero();
    v.push(T::E::from_u64(elem));
    while elem < max as u64
        invariant
            f.valid(),
            p == f.modulus(),
            k == T::ORDER as nat,
            max < pow2(k),
            pow2(k) <= pow2(<T::E as ElementStore>::width()),
            pow2(k) <= 0x8000_0000_0000_0000,
            elem <= max,
            base == old(v)@.len(),
            v@.len() == base + elem + 1,
            forall|i: int| 0 <= i < base ==> v@[i] == old(v)@[i],
            forall|a: nat| a <= elem ==> (#[trigger] v@[(base + a) as int]).value() == gf_inv(p, a),
        decreases max - elem,
    {
        elem = elem + crate::machine::one();
        let ghost before = v@;
        v.push(f.inv(T::E::from_u64(elem)));
        proof {
            assert forall|a: nat| a <= elem implies (#[trigger] v@[(base + a) as int]).value()
                == gf_inv(p, a) by {
                if a < elem {
                    assert(v@[(base + a) as int] == before[(base + a) as int]);
                }
            }
        }
    }
}

/// GF(2^4) with the polynomial 0x13, answering products and inverses from
/// tables.
#[allow(non_camel_case_types)]
pub struct F4_0x13 {
    mul_lut: FullMulLUT<F4>,
    inv_lut: Vec<u8>,
}

/// Multiplication by `x` in GF(2^4) with the polynomial 0x13, in numbers.
proof fn lemma_gf16_times_x(y: nat)
    requires
        y < 16,
    ensures
        gf_mul(0x13, y, 2) == if y < 8 {
            2 * y
        } else {
            (2 * y - 13 - 2 * ((2 * y) % 4)) as nat
        },
{
    let w = (2 * y - 16) as nat;
    vstd::arithmetic::power2::lemma2_to64();
    crate::poly::lemma_deg_unique(0x13, 4);
    crate::poly::lemma_mul_double_right(y, 1);
    crate::poly::lemma_mul_one(y);
    crate::poly::lemma_mod_double(y, 0x13);
    crate::poly::lemma_mod_small(y, 0x13);
    if y >= 8 {
        crate::poly::lemma_add_same_top(4, 2 * y, 0x13);
        crate::poly::lemma_add_double(w / 2, 1, 0, 1);
        crate::poly::lemma_add_double(w / 4, 0, (w / 2) % 2, 1);
        crate::poly::lemma_add_zero(w / 4);
    }
}

/// Every element of GF(2^4) with the polynomial 0x13 but 0 has an inverse:
/// each is a power of `x`, and the fifteenth power of `x` is 1.
pub proof fn lemma_gf16_units(a: nat)
    requires
        0 < a < 16,
    ensures
        is_unit(0x13, a),
{
    let p: nat = 0x13;
    vstd::arithmetic::power2::lemma2_to64();
    assert(is_modulus(p, 4));
    assert(crate::gf::gf_pow(p, 2, 0) == 1);
    lemma_gf16_times_x(1);
    assert(crate::gf::gf_pow(p, 2, 1) == 2);
    lemma_gf16_times_x(2);
    assert(crate::gf::gf_pow(p, 2, 2) == 4);
    lemma_gf16_times_x(4);
    assert(crate::gf::gf_pow(p, 2, 3) == 8);
    lemma_gf16_times_x(8);
    assert(crate::gf::gf_pow(p, 2, 4) == 3);
    lemma_gf16_times_x(3);
    assert(crate::gf::gf_pow(p, 2, 5) == 6);
    lemma_gf16_times_x(6);
    assert(crate::gf::gf_pow(p, 2, 6) == 12);
    lemma_gf16_times_x(12);
    assert(crate::gf::gf_pow(p, 2, 7) == 11);
    lemma_gf16_times_x(11);
    assert(crate::gf::gf_pow(p, 2, 8) == 5);
    lemma_gf16_times_x(5);
    assert(crate::gf::gf_pow(p, 2, 9) == 10);
    lemma_gf16_times_x(10);
    assert(crate::gf::gf_pow(p, 2, 10) == 7);
    lemma_gf16_times_x(7);
    assert(crate::gf::gf_pow(p, 2, 11) == 14);
    lemma_gf16_times_x(14);
    assert(crate::gf::gf_pow(p, 2, 12) == 15);
    lemma_gf16_times_x(15);
    assert(crate::gf::gf_pow(p, 2, 13) == 13);
    lemma_gf16_times_x(13);
    assert(crate::gf::gf_pow(p, 2, 14) == 9);
    lemma_gf16_times_x(9);
    assert(crate::gf::gf_pow(p, 2, 15) == 1);
    let n: nat = if a == 1 {
        0
    } else if a == 2 {
        1
    } else if a == 4 {
        2
    } else if a == 8 {
        3
    } else if a == 3 {
        4
    } else if a == 6 {
        5
    } else if a == 12 {
        6
    } else if a == 11 {
        7
    } else if a == 5 {
        8
    } else if a == 10 {
        9
    } else if a == 7 {
        10
    } else if a == 14 {
        11
    } else if a == 15 {
        12
    } else if a == 13 {
        13
    } else {
        14
    };
    assert(crate::gf::gf_pow(p, 2, n) == a);
    crate::gf::lemma_unit_of_order(p, 4, 2, 15, n);
}

impl GaloisField for F4_0x13 {
    type E = u8;

    type EE = u8;

    const ORDER: u16 = 4;

    const HIGH_BIT: u8 = 0x08;

    const POLY_BIT: u8 = 0x10;

    const FIELD_MASK: u8 = 0x0f;

    open spec fn modulus(&self) -> nat {
        0x13
    }

    closed spec fn valid(&self) -> bool {
        &&& self.mul_lut.wf()
        &&& self.mul_lut.modulus() == 0x13
        &&& self.inv_lut@.len() == 16
        &&& forall|a: nat| a < 16 ==> (#[trigger] self.inv_lut@[a as int]) as nat == gf_inv(0x13, a)
    }

    proof fn lemma_constants()
        ensures
            Self::ORDER == 4,
            Self::HIGH_BIT == 0x08,
            Self::POLY_BIT == 0x10,
            Self::FIELD_MASK == 0x0f,
    {
        vstd::arithmetic::power2::lemma2_to64();
        assert(Self::ORDER == 4 && Self::HIGH_BIT == 0x08 && Self::POLY_BIT == 0x10
            && Self::FIELD_MASK == 0x0f);
        assert(<u8 as ElementStore>::width() == 8);
        assert(Self::HIGH_BIT.value() == 0x08 && Self::POLY_BIT.value() == 0x10
            && Self::FIELD_MASK.value() == 0x0f);
    }

    proof fn lemma_valid(&self) {
        Self::lemma_constants();
        vstd::arithmetic::power2::lemma2_to64();
        vstd::arithmetic::power2::lemma2_to64_rest();
    }

    fn poly(&self) -> (r: u8)
        ensures
            r == 3,
    {
        proof {
            vstd::arithmetic::power2::lemma2_to64();
            assert(Self::ORDER == 4);
            assert(3u8.value() == 3);
        }
        3
    }

    fn full_poly(&self) -> (r: u8)
        ensures
            r == 19,
    {
        proof {
            assert(19u8.value() == 19);
        }
        19
    }

    fn mul(&self, a: u8, b: u8) -> (r: u8) {
        proof {
            Self::lemma_constants();
            F4::lemma_constants();
            assert(a.value() == a as nat && b.value() == b as nat);
        }
        let r = self.mul_lut.mul(a, b);
        proof {
            assert(r.value() == r as nat);
            vstd::arithmetic::power2::lemma2_to64();
            crate::poly::lemma_deg_unique(0x13, 4);
            crate::gf::lemma_gf_mul_bound(0x13, a as nat, b as nat);
        }
        r
    }

    fn inv(&self, a: u8) -> (r: u8) {
        proof {
            vstd::arithmetic::power2::lemma2_to64();
            assert(Self::ORDER == 4);
            assert(a.value() == a as nat);
            crate::poly::lemma_deg_unique(0x13, 4);
            if is_unit(0x13, a as nat) {
                crate::gf::lemma_gf_inv_of_unit(0x13, a as nat);
            }
        }
        let r = self.inv_lut[a as usize];
        proof {
            assert(r.value() == r as nat);
            assert(self.inv_lut@[a as nat as int] as nat == gf_inv(0x13, a as nat));
        }
        r
    }
}

/// GF(2^4) with the polynomial 0x13, its tables filled.
pub fn new_gf4_0x13() -> (f: F4_0x13)
    ensures
        f.valid(),
{
    let field = new_gf4(19, 3);
    let mut inv: Vec<u8> = Vec::with_capacity(16);
    proof {
        vstd::arithmetic::power2::lemma2_to64();
        F4::lemma_constants();
    }
    fill_inverse(&field, &mut inv, 15);
    let lut = FullMulLUT::<F4>::new(&field);
    proof {
        assert forall|a: nat| a < 16 implies (#[trigger] inv@[a as int]) as nat == gf_inv(
            0x13,
            a,
        ) by {
            assert(inv@[(0 + a) as int].value() == gf_inv(0x13, a));
        }
    }
    F4_0x13 { mul_lut: lut, inv_lut: inv }
}

/// What a table of powers cannot be built from: an element whose powers are
/// not all the elements but 0.
#[derive(Debug, Clone, Copy, PartialEq, Eq)]
pub struct NotAGenerator;

/// Logarithms and powers to the base of a generator `g` of a field with
/// `n = 2^ORDER` elements.
///
/// `log` has `n` entries: the logarithm of 0 is `-n`, that of `g^i` is `i` for
/// `0 <= i < n - 1`. `exp` has `4 * n` entries: `2 * n` zeros, the powers `g^0`
/// to `g^(2n - 2)`, and a last zero. The sum of two logarithms, counted from
/// the entry `2 * n`, so always lands on the product.
pub struct BigLogExpTables<G: GaloisField> {
    log: Vec<i32>,
    exp: Vec<G::E>,
    modulus: Ghost<nat>,
    generator: Ghost<nat>,
}

impl<G: GaloisField> BigLogExpTables<G> {
    /// The polynomial of the field.
    pub closed spec fn modulus(&self) -> nat {
        self.modulus@
    }

    /// The base of the logarithms.
    pub closed spec fn generator(&self) -> nat {
        self.generator@
    }

    /// The tables are laid out and filled as described.
    pub closed spec fn wf(&self) -> bool {
        let p = self.modulus@;
        let g = self.generator@;
        let n = pow2(G::ORDER as nat);
        &&& G::ORDER <= 16
        &&& is_modulus(p, G::ORDER as nat)
        &&& gf_pow(p, g, (n - 1) as nat) == 1
        &&& self.log@.len() == n
        &&& self.exp@.len() == 4 * n
        &&& self.log@[0] == -n
        &&& forall|x: nat|
            0 < x < n ==> 0 <= (#[trigger] self.log@[x as int]) < n - 1 && gf_pow(
                p,
                g,
                self.log@[x as int] as nat,
            ) == x
        &&& forall|i: nat| i < 2 * n ==> (#[trigger] self.exp@[i as int]).value() == 0
        &&& forall|i: nat|
            i <= 2 * n - 2 ==> (#[trigger] self.exp@[(2 * n + i) as int]).value() == gf_pow(p, g, i)
        &&& self.exp@[4 * n - 1].value() == 0
    }

    /// The tables of the field `f` to the base `g`, or the refusal of a `g`
    /// that does not generate. The tables have `5 * 2^ORDER` entries, and
    /// orders above 16 are left out.
    pub fn new(f: &G, g: G::E) -> (r: Result<Self, NotAGenerator>)
        requires
            f.valid(),
            G::ORDER <= 16,
            g.value() < pow2(G::ORDER as nat),
        ensures
            r is Ok <==> is_generator(f.modulus(), G::ORDER as nat, g.value()),
            r matches Ok(t) ==> t.wf() && t.modulus() == f.modulus() && t.generator() == g.value(),
    {
        let ghost k = G::ORDER as nat;
        let ghost p = f.modulus();
        let ghost gen = g.value();
        proof {
            G::lemma_constants();
            f.lemma_valid();
            crate::gf::lemma_modulus(p, k);
            lemma_pow2_fits(k);
            vstd::arithmetic::power2::lemma2_to64();
            lemma_pow2_le(k, 16);
            lemma_pow2_le(k, <G::E as ElementStore>::width());
        }
        let size: usize = crate::machine::bit_at(f.order() as u32) as usize;
        let cycle: usize = size - 1;
        let bias: usize = 2 * size;
        let none = G::E::from_u64(zero());
        let mut exp: Vec<G::E> = Vec::with_capacity(4 * size);
        let mut log: Vec<i32> = vec![0i32; size];
        let mut pad: usize = 0;
        while pad < bias
            invariant
                pad <= bias,
                none.value() == 0,
                exp@.len() == pad,
                forall|i: nat| i < pad ==> (#[trigger] exp@[i as int]).value() == 0,
            decreases bias - pad,
        {
            exp.push(none);
            pad = pad + 1;
        }
        // the first cycle of powers, and the logarithm of each
        let mut power = G::E::from_u64(crate::machine::one());
        let mut i: usize = 0;
        while i < cycle
            invariant
                f.valid(),
                k == G::ORDER as nat,
                p == f.modulus(),
                gen == g.value(),
                gen < pow2(k),
                is_modulus(p, k),
                size == pow2(k),
                size <= 65536,
                cycle == size - 1,
                bias == 2 * size,
                i <= cycle,
                pow2(k) <= pow2(<G::E as ElementStore>::width()),
                log@.len() == size,
                exp@.len() == bias + i,
                power.value() == gf_pow(p, gen, i as nat),
                power.value() < size,
                forall|j: nat| j < bias ==> (#[trigger] exp@[j as int]).value() == 0,
                forall|j: nat| j < i ==> (#[trigger] exp@[(bias + j) as int]).value() == gf_pow(p, gen, j),
                forall|j: nat| 0 < j < i ==> gf_pow(p, gen, j) != 1,
                forall|j: nat|
                    j < i ==> 0 <= (#[trigger] log@[gf_pow(p, gen, j) as int]) < i && exp@[bias
                        + log@[gf_pow(p, gen, j) as int]].value() == gf_pow(p, gen, j),
            decreases cycle - i,
        {
            if i > 0 && power.to_u64() == crate::machine::one() {
                return Err(NotAGenerator);
            }
            let ghost exp_before = exp@;
            let ghost log_before = log@;
            exp.push(power);
            log[power.to_u64() as usize] = i as i32;
            proof {
                crate::gf::lemma_gf_pow_bound(p, k, gen, i as nat);
                assert forall|j: nat| j < i + 1 implies 0 <= (#[trigger] log@[gf_pow(
                    p,
                    gen,
                    j,
                ) as int]) < i + 1 && exp@[bias + log@[gf_pow(p, gen, j) as int]].value()
                    == gf_pow(p, gen, j) by {
                    crate::gf::lemma_gf_pow_bound(p, k, gen, j);
                    let y = gf_pow(p, gen, j);
                    if y == power.value() {
                        assert(log@[y as int] == i);
                        assert(exp@[bias + i] == power);
                    } else {
                        assert(log@[y as int] == log_before[y as int]);
                        assert(exp@[bias + log_before[y as int]] == exp_before[bias
                            + log_before[y as int]]);
                    }
                }
                assert forall|j: nat| j < i + 1 implies (#[trigger] exp@[(bias + j) as int]).value()
                    == gf_pow(p, gen, j) by {
                    if j < i {
                        assert(exp@[(bias + j) as int] == exp_before[(bias + j) as int]);
                    }
                }
                assert forall|j: nat| j < bias implies (#[trigger] exp@[j as int]).value() == 0 by {
                    assert(exp@[j as int] == exp_before[j as int]);
                }
                assert(gf_pow(p, gen, (i + 1) as nat) == gf_mul(p, gf_pow(p, gen, i as nat), gen));
            }
            power = f.mul(power, g);
            i = i + 1;
        }
        if power.to_u64() != crate::machine::one() {
            return Err(NotAGenerator);
        }
        // the second cycle, which the sum of two logarithms can reach
        let mut j: usize = cycle;
        while j < 2 * cycle
            invariant
                f.valid(),
                k == G::ORDER as nat,
                p == f.modulus(),
                gen == g.value(),
                gen < pow2(k),
                is_modulus(p, k),
                size == pow2(k),
                size <= 65536,
                cycle == size - 1,
                bias == 2 * size,
                cycle <= j <= 2 * cycle,
                log@.len() == size,
                exp@.len() == bias + j,
                power.value() == gf_pow(p, gen, j as nat),
                power.value() < size,
                forall|j: nat| j < bias ==> (#[trigger] exp@[j as int]).value() == 0,
                forall|i: nat| i < j ==> (#[trigger] exp@[(bias + i) as int]).value() == gf_pow(p, gen, i),
            decreases 2 * cycle - j,
        {
            let ghost exp_before = exp@;
            exp.push(power);
            proof {
                assert forall|i: nat| i < j + 1 implies (#[trigger] exp@[(bias + i) as int]).value()
                    == gf_pow(p, gen, i) by {
                    if i < j {
                        assert(exp@[(bias + i) as int] == exp_before[(bias + i) as int]);
                    }
                }
                assert forall|i: nat| i < bias implies (#[trigger] exp@[i as int]).value() == 0 by {
                    assert(exp@[i as int] == exp_before[i as int]);
                }
                crate::gf::lemma_gf_pow_bound(p, k, gen, (j + 1) as nat);
                assert(gf_pow(p, gen, (j + 1) as nat) == gf_mul(p, gf_pow(p, gen, j as nat), gen));
            }
            power = f.mul(power, g);
            j = j + 1;
        }
        let ghost exp_before = exp@;
        exp.push(power);
        exp.push(none);
        let ghost log_before = log@;
        log[0] = -(size as i32);
        proof {
            assert forall|i: nat| i <= 2 * size - 2 implies (#[trigger] exp@[(2 * size
                + i) as int]).value() == gf_pow(p, gen, i) by {
                if i < 2 * cycle {
                    assert(exp@[(bias + i) as int] == exp_before[(bias + i) as int]);
                }
            }
            assert forall|i: nat| i < 2 * size implies (#[trigger] exp@[i as int]).value() == 0 by {
                assert(exp@[i as int] == exp_before[i as int]);
            }
        }
        proof {
            assert(is_generator(p, k, gen));
            assert forall|y: nat| 0 < y < size implies 0 <= (#[trigger] log@[y as int]) < size
                - 1 && gf_pow(p, gen, log@[y as int] as nat) == y by {
                crate::gf::lemma_generator_covers(p, k, gen, y);
                let t = choose|t: nat| t < cycle && #[trigger] gf_pow(p, gen, t) == y;
                assert(0 <= log_before[gf_pow(p, gen, t) as int] < cycle);
                let l = log_before[y as int] as nat;
                assert(exp@[(2 * size + l) as int].value() == gf_pow(p, gen, l));
            }
        }
        Ok(BigLogExpTables { log, exp, modulus: Ghost(p), generator: Ghost(gen) })
    }

    /// A field with such tables is a field indeed: every element but 0 is a
    /// power of the generator and has an inverse.
    pub proof fn lemma_units(&self, x: nat)
        requires
            self.wf(),
            0 < x < pow2(G::ORDER as nat),
        ensures
            is_unit(self.modulus(), x),
    {
        let n = pow2(G::ORDER as nat);
        let l = self.log@[x as int] as nat;
        crate::gf::lemma_unit_of_order(
            self.modulus@,
            G::ORDER as nat,
            self.generator@,
            (n - 1) as nat,
            l,
        );
    }

    /// The product of `a` and `b`: the power whose exponent is the sum of the
    /// two logarithms.
    pub fn mul(&self, a: G::E, b: G::E) -> (r: G::E)
        requires
            self.wf(),
            a.value() < pow2(G::ORDER as nat),
            b.value() < pow2(G::ORDER as nat),
        ensures
            r.value() == gf_mul(self.modulus(), a.value(), b.value()),
    {
        let ghost k = G::ORDER as nat;
        let ghost p = self.modulus@;
        let ghost g = self.generator@;
        let ghost n = pow2(k);
        proof {
            lemma_pow2_fits(k);
            vstd::arithmetic::power2::lemma2_to64();
            lemma_pow2_le(k, 16);
            crate::gf::lemma_modulus(p, k);
        }
        let bias: i64 = 2 * (self.log.len() as i64);
        let log_a: i64 = self.log[a.to_u64() as usize] as i64;
        let log_b: i64 = self.log[b.to_u64() as usize] as i64;
        proof {
            if a.value() != 0 && b.value() != 0 {
                crate::gf::lemma_gf_pow_add(p, k, g, log_a as nat, log_b as nat);
                assert(self.exp@[(2 * n + (log_a + log_b) as nat) as int].value() == gf_pow(
                    p,
                    g,
                    (log_a + log_b) as nat,
                ));
            } else {
                crate::gf::lemma_gf_mul_zero(p, a.value());
                crate::gf::lemma_gf_mul_zero(p, b.value());
                assert(self.exp@[(bias + log_a + log_b) as nat as int].value() == 0);
            }
        }
        self.exp[(bias + log_a + log_b) as usize]
    }

    /// The inverse of `a`: the power whose exponent is `n - 1` less the
    /// logarithm; 0 for 0.
    pub fn inv(&self, a: G::E) -> (r: G::E)
        requires
            self.wf(),
            a.value() < pow2(G::ORDER as nat),
        ensures
            r.value() == gf_inv(self.modulus(), a.value()),
            r.value() < pow2(G::ORDER as nat),
            a.value() != 0 ==> is_inverse(self.modulus(), a.value(), r.value()),
    {
        let ghost k = G::ORDER as nat;
        let ghost p = self.modulus@;
        let ghost g = self.generator@;
        let ghost n = pow2(k);
        proof {
            lemma_pow2_fits(k);
            vstd::arithmetic::power2::lemma2_to64();
            lemma_pow2_le(k, 16);
            crate::gf::lemma_modulus(p, k);
        }
        let size: i64 = self.log.len() as i64;
        let bias: i64 = 2 * size;
        let log_top: i64 = size - 1;
        let log_a: i64 = self.log[a.to_u64() as usize] as i64;
        proof {
            if a.value() != 0 {
                let e = (log_top - log_a) as nat;
                crate::gf::lemma_gf_pow_add(p, k, g, log_a as nat, e);
                crate::gf::lemma_gf_pow_bound(p, k, g, e);
                assert(self.exp@[(2 * n + e) as int].value() == gf_pow(p, g, e));
                assert(is_inverse(p, a.value(), gf_pow(p, g, e)));
                crate::gf::lemma_gf_inv_is(p, a.value(), gf_pow(p, g, e));
            } else {
                crate::gf::lemma_gf_inv_zero(p);
                assert(bias + log_top - log_a == 4 * n - 1);
            }
        }
        self.exp[(bias + log_top - log_a) as usize]
    }

    /// `a` to the power `b`: the power of the generator whose exponent is the
    /// logarithm times `b`, counted modulo `n - 1`. The logarithm of 0 is
    /// negative and leads into the zeros, except where `b` counts as 0.
    pub fn pow(&self, a: G::E, b: u64) -> (r: G::E)
        requires
            self.wf(),
            a.value() < pow2(G::ORDER as nat),
            b <= u32::MAX,
        ensures
            r.value() == crate::gf::field_pow(
                self.modulus(),
                G::ORDER as nat,
                a.value(),
                b as nat,
            ),
            r.value() < pow2(G::ORDER as nat),
    {
        let ghost k = G::ORDER as nat;
        let ghost p = self.modulus@;
        let ghost g = self.generator@;
        let ghost n = pow2(k);
        let ghost m = (n - 1) as nat;
        proof {
            lemma_pow2_fits(k);
            vstd::arithmetic::power2::lemma2_to64();
            lemma_pow2_le(k, 16);
            crate::gf::lemma_modulus(p, k);
        }
        let size: i64 = self.log.len() as i64;
        let bias: i64 = 2 * size;
        let log_top: i64 = size - 1;
        let log_a: i64 = self.log[a.to_u64() as usize] as i64;
        proof {
            assert(-0x1_0000_0000_0000 <= log_a * (b as i64) <= 0x1_0000_0000_0000)
                by (nonlinear_arith)
                requires
                    -65536 <= log_a < 65536,
                    0 <= b <= 0xffff_ffff,
            ;
        }
        let product: i64 = log_a * (b as i64);
        let rem: i64 = product % log_top;
        proof {
            let e = b as nat % m;
            let pr = product as int;
            let la_i = log_a as int;
            let bi = b as int;
            assert(pr == la_i * bi);
            vstd::arithmetic::div_mod::lemma_mod_bound(b as int, m as int);
            crate::gf::lemma_gf_pow_bound(p, k, a.value(), e);
            if a.value() != 0 {
                let la = log_a as nat;
                assert(pr >= 0) by (nonlinear_arith)
                    requires
                        pr == la_i * bi,
                        la_i >= 0,
                        bi >= 0,
                ;
                vstd::arithmetic::div_mod::lemma_mod_bound(product as int, m as int);
                // a^m = 1, so the exponent of a counts modulo m; so does that of g
                crate::gf::lemma_gf_pow_pow(p, k, g, la, m);
                crate::gf::lemma_gf_pow_pow(p, k, g, m, la);
                crate::gf::lemma_gf_pow_of_one(p, k, la);
                assert(la * m == m * la) by (nonlinear_arith);
                crate::gf::lemma_gf_pow_cycle(p, k, a.value(), m, b as nat);
                crate::gf::lemma_gf_pow_pow(p, k, g, la, b as nat);
                crate::gf::lemma_gf_pow_cycle(p, k, g, m, la * (b as nat));
                assert(self.exp@[(2 * n + rem as nat) as int].value() == gf_pow(p, g, rem as nat));
            } else {
                // n * b = m * b + b
                assert(-pr == m * bi + bi) by (nonlinear_arith)
                    requires
                        pr == la_i * bi,
                        la_i == -n,
                        m == n - 1,
                ;
                assert(-pr >= 0) by (nonlinear_arith)
                    requires
                        -pr == m * bi + bi,
                        m >= 0,
                        bi >= 0,
                ;
                vstd::arithmetic::div_mod::lemma_mod_multiples_vanish(
                    b as int,
                    b as int,
                    m as int,
                );
                assert(m * bi == bi * m) by (nonlinear_arith);
                assert((-pr) % (m as int) == e);
                assert(log_top as int == m as int);
                if pr < 0 {
                    assert(rem == -((-pr) % (log_top as int)));
                } else {
                    vstd::arithmetic::div_mod::lemma_small_mod(0, m);
                    assert(rem == 0);
                }
                assert(rem == -(e as int));
                if e == 0 {
                    assert(self.exp@[(2 * n + 0nat) as int].value() == gf_pow(p, g, 0));
                } else {
                    assert(self.exp@[(bias + rem) as nat as int].value() == 0);
                    crate::gf::lemma_gf_mul_zero(p, gf_pow(p, 0, (e - 1) as nat));
                }
            }
        }
        self.exp[(bias + rem) as usize]
    }
}

/// GF(2^8) with the polynomial 0x11b, answering products, inverses and powers
/// from tables of logarithms and powers to the base 3.
#[allow(non_camel_case_types)]
pub struct F8_0x11b {
    tables: BigLogExpTables<F8>,
}

impl F8_0x11b {
    /// The field is a field indeed: every element but 0 has an inverse.
    pub proof fn lemma_units(&self, x: nat)
        requires
            self.valid(),
            0 < x < 256,
        ensures
            is_unit(0x11b, x),
    {
        vstd::arithmetic::power2::lemma2_to64();
        F8::lemma_constants();
        self.tables.lemma_units(x);
    }
}

impl GaloisField for F8_0x11b {
    type E = u8;

    type EE = u16;

    const ORDER: u16 = 8;

    const HIGH_BIT: u8 = 0x80;

    const POLY_BIT: u16 = 0x100;

    const FIELD_MASK: u8 = 0xff;

    open spec fn modulus(&self) -> nat {
        0x11b
    }

    closed spec fn valid(&self) -> bool {
        &&& self.tables.wf()
        &&& self.tables.modulus() == 0x11b
    }

    proof fn lemma_constants()
        ensures
            Self::ORDER == 8,
            Self::HIGH_BIT == 0x80,
            Self::POLY_BIT == 0x100,
            Self::FIELD_MASK == 0xff,
    {
        vstd::arithmetic::power2::lemma2_to64();
        assert(Self::ORDER == 8 && Self::HIGH_BIT == 0x80 && Self::POLY_BIT == 0x100
            && Self::FIELD_MASK == 0xff);
        assert(<u8 as ElementStore>::width() == 8 && <u16 as ElementStore>::width() == 16);
        assert(Self::HIGH_BIT.value() == 0x80 && Self::POLY_BIT.value() == 0x100
            && Self::FIELD_MASK.value() == 0xff);
    }

    proof fn lemma_valid(&self) {
        Self::lemma_constants();
        vstd::arithmetic::power2::lemma2_to64();
    }

    fn poly(&self) -> (r: u8)
        ensures
            r == 0x1b,
    {
        proof {
            vstd::arithmetic::power2::lemma2_to64();
            assert(Self::ORDER == 8);
            assert(0x1bu8.value() == 0x1b);
        }
        0x1b
    }

    fn full_poly(&self) -> (r: u16)
        ensures
            r == 0x11b,
    {
        proof {
            assert(0x11bu16.value() == 0x11b);
        }
        0x11b
    }

    fn mul(&self, a: u8, b: u8) -> (r: u8) {
        proof {
            Self::lemma_constants();
            F8::lemma_constants();
            assert(a.value() == a as nat && b.value() == b as nat);
        }
        let r = self.tables.mul(a, b);
        proof {
            assert(r.value() == r as nat);
            vstd::arithmetic::power2::lemma2_to64();
        }
        r
    }

    fn inv(&self, a: u8) -> (r: u8) {
        proof {
            Self::lemma_constants();
            F8::lemma_constants();
            assert(a.value() == a as nat);
        }
        let r = self.tables.inv(a);
        proof {
            assert(r.value() == r as nat);
            crate::gf::lemma_gf_inv_zero(0x11b);
        }
        r
    }

    fn pow(&self, a: u8, b: u16) -> (r: u8) {
        proof {
            Self::lemma_constants();
            F8::lemma_constants();
            assert(a.value() == a as nat && b.value() == b as nat);
        }
        let r = self.tables.pow(a, b as u64);
        proof {
            assert(r.value() == r as nat);
        }
        r
    }
}

/// GF(2^8) with the polynomial 0x11b, its tables filled to the base 3.
pub fn new_gf8_0x11b() -> (r: Result<F8_0x11b, NotAGenerator>)
    ensures
        r is Ok <==> is_generator(0x11b, 8, 3),
        r matches Ok(f) ==> f.valid(),
{
    let field = crate::field::new_gf8(0x11b, 0x1b);
    proof {
        vstd::arithmetic::power2::lemma2_to64();
        F8::lemma_constants();
        assert(3u8.value() == 3);
    }
    match BigLogExpTables::<F8>::new(&field, 3) {
        Ok(tables) => Ok(F8_0x11b { tables }),
        Err(e) => Err(e),
    }
}

/// The product of two polynomials of two bytes each, reduced after each shift
/// by a byte, is the product in the field.
proof fn lemma_schoolbook(p: nat, a_hi: nat, a_lo: nat, b_hi: nat, b_lo: nat)
    requires
        is_modulus(p, 16),
        a_hi < 256,
        a_lo < 256,
        b_hi < 256,
        b_lo < 256,
    ensures
        ({
            let hh = poly_mul(b_hi, a_hi);
            let lh = poly_mul(b_lo, a_hi);
            let hl = poly_mul(b_hi, a_lo);
            let ll = poly_mul(b_lo, a_lo);
            let t1 = poly_add(poly_add(poly_mod(256 * hh, p), lh), hl);
            gf_mul(p, 256 * a_hi + a_lo, 256 * b_hi + b_lo) == poly_add(poly_mod(256 * t1, p), ll)
        }),
{
    let hh = poly_mul(b_hi, a_hi);
    let lh = poly_mul(b_lo, a_hi);
    let hl = poly_mul(b_hi, a_lo);
    let ll = poly_mul(b_lo, a_lo);
    let a = 256 * a_hi + a_lo;
    let b = 256 * b_hi + b_lo;
    vstd::arithmetic::power2::lemma2_to64();
    crate::gf::lemma_modulus(p, 16);
    // b a = x^8 (b_hi a) + b_lo a, and each of the two splits again
    crate::poly::lemma_add_disjoint(8, a_lo, a_hi);
    crate::poly::lemma_add_disjoint(8, b_lo, b_hi);
    crate::poly::lemma_mul_comm(a, b);
    crate::poly::lemma_mul_distrib_left(b_lo, 256 * b_hi, a);
    crate::poly::lemma_mul_shift(8, b_hi, a);
    crate::poly::lemma_mul_distrib_right(b_hi, a_lo, 256 * a_hi);
    crate::poly::lemma_mul_shift(8, b_hi, a_hi);
    crate::poly::lemma_mul_distrib_right(b_lo, a_lo, 256 * a_hi);
    crate::poly::lemma_mul_shift(8, b_lo, a_hi);
    let top = poly_add(hl, 256 * hh);
    assert(poly_mul(b_hi, a) == top);
    assert(poly_mul(b_lo, a) == poly_add(ll, 256 * lh));
    assert(poly_mul(a, b) == poly_add(poly_add(ll, 256 * lh), 256 * top));
    // x^8 (lh + top) + ll
    crate::poly::lemma_add_double_shift(8, lh, top);
    crate::poly::lemma_add_assoc(ll, 256 * lh, 256 * top);
    crate::poly::lemma_add_comm(ll, 256 * poly_add(lh, top));
    crate::poly::lemma_mod_add(256 * poly_add(lh, top), ll, p);
    crate::poly::lemma_mul_bound(8, 8, b_lo, a_lo);
    crate::poly::lemma_mod_small(ll, p);
    // and under the remainder x^8 hh may be reduced first
    crate::poly::lemma_mod_shift(poly_add(lh, top), 8, p);
    crate::poly::lemma_mod_add(lh, top, p);
    crate::poly::lemma_mod_add(hl, 256 * hh, p);
    crate::poly::lemma_mul_bound(8, 8, b_lo, a_hi);
    crate::poly::lemma_mul_bound(8, 8, b_hi, a_lo);
    crate::poly::lemma_mod_small(lh, p);
    crate::poly::lemma_mod_small(hl, p);
    let r = poly_mod(256 * hh, p);
    let t1 = poly_add(poly_add(r, lh), hl);
    crate::poly::lemma_mod_bound(256 * hh, p);
    crate::poly::lemma_add_bound(16, r, lh);
    crate::poly::lemma_add_bound(16, poly_add(r, lh), hl);
    crate::poly::lemma_mod_small(t1, p);
    crate::poly::lemma_add_comm(hl, r);
    crate::poly::lemma_add_assoc(lh, r, hl);
    crate::poly::lemma_add_comm(lh, r);
    assert(poly_mod(poly_add(lh, top), p) == t1);
}

/// GF(2^16) with the polynomial 0x1002b. Products are put together from the
/// products of a byte and a nibble, with a table that reduces the byte that a
/// shift pushes out; inverses are read from a table.
#[allow(non_camel_case_types)]
pub struct F16_0x1002b {
    mull: MullTable,
    reduce: Vec<u16>,
    inv: Vec<u16>,
}

impl F16_0x1002b {
    /// `x^8` times `v` in the field: the byte that the shift pushes out comes
    /// back reduced.
    pub fn mod_shift_left_8(&self, v: u16) -> (r: u16)
        requires
            self.valid(),
        ensures
            r == poly_mod(256 * v as nat, 0x1002b),
    {
        proof {
            assert(v >> 8u16 < 256 && v << 8u16 == (v & 0xff) * 256 && v & 0xff < 256 && v as nat
                == 256 * ((v >> 8u16) as nat) + (v & 0xff) as nat) by (bit_vector);
        }
        let out = self.reduce[(v >> 8u16) as usize];
        proof {
            let p: nat = 0x1002b;
            let hi = (v >> 8u16) as nat;
            let lo = (v & 0xff) as nat;
            vstd::arithmetic::power2::lemma2_to64();
            crate::poly::lemma_deg_unique(p, 16);
            crate::machine::lemma_xor((v << 8u16) as u64, out as u64);
            // x^8 v = x^16 hi + x^8 lo
            crate::poly::lemma_add_disjoint(16, 256 * lo, hi);
            crate::poly::lemma_mod_add(256 * lo, 65536 * hi, p);
            crate::poly::lemma_mod_small(256 * lo, p);
            assert(self.reduce@[hi as int] == poly_mod(65536 * hi, p));
        }
        (v << 8u16) ^ out
    }

    /// Remainder of a polynomial of four bytes modulo the field polynomial,
    /// taken a byte at a time.
    pub fn mod_reduce_bytewise(&self, a: u32) -> (r: u16)
        requires
            self.valid(),
        ensures
            r == poly_mod(a as nat, 0x1002b),
    {
        proof {
            assert(a >> 16u32 < 65536 && (a >> 8u32) & 0xff < 256 && a & 0xff < 256 && a as nat
                == 65536 * ((a >> 16u32) as nat) + 256 * (((a >> 8u32) & 0xff) as nat) + (a
                & 0xff) as nat) by (bit_vector);
        }
        let high = (a >> 16u32) as u16;
        let mid = ((a >> 8u32) & 0xff) as u16;
        let low = (a & 0xff) as u16;
        let first = self.mod_shift_left_8(high) ^ mid;
        let second = self.mod_shift_left_8(first) ^ low;
        proof {
            let p: nat = 0x1002b;
            let r1 = poly_mod(256 * high as nat, p);
            vstd::arithmetic::power2::lemma2_to64();
            crate::poly::lemma_deg_unique(p, 16);
            crate::machine::lemma_xor(r1 as u64, mid as u64);
            crate::machine::lemma_xor(poly_mod(256 * first as nat, p) as u64, low as u64);
            // a = x^8 (x^8 high + mid) + low
            crate::poly::lemma_add_disjoint(8, mid as nat, high as nat);
            crate::poly::lemma_add_disjoint(8, low as nat, (256 * high + mid) as nat);
            crate::poly::lemma_add_comm(256 * high as nat, mid as nat);
            crate::poly::lemma_add_comm(256 * (256 * high + mid) as nat, low as nat);
            crate::poly::lemma_mod_add(256 * (256 * high + mid) as nat, low as nat, p);
            crate::poly::lemma_mod_small(low as nat, p);
            crate::poly::lemma_mod_shift((256 * high + mid) as nat, 8, p);
            crate::poly::lemma_mod_add(256 * high as nat, mid as nat, p);
            crate::poly::lemma_mod_small(mid as nat, p);
            crate::poly::lemma_mod_bound(256 * high as nat, p);
            crate::poly::lemma_add_bound(16, r1, mid as nat);
            crate::poly::lemma_mod_small(first as nat, p);
        }
        second
    }
}

impl GaloisField for F16_0x1002b {
    type E = u16;

    type EE = u32;

    const ORDER: u16 = 16;

    const HIGH_BIT: u16 = 0x8000;

    const POLY_BIT: u32 = 0x10000;

    const FIELD_MASK: u16 = 0xffff;

    open spec fn modulus(&self) -> nat {
        0x1002b
    }

    closed spec fn valid(&self) -> bool {
        &&& self.mull.wf()
        &&& self.reduce@.len() == 256
        &&& forall|i: nat|
            i < 256 ==> (#[trigger] self.reduce@[i as int]) as nat == poly_mod(65536 * i, 0x1002b)
        &&& self.inv@.len() == 65536
        &&& forall|a: nat|
            a < 65536 ==> (#[trigger] self.inv@[a as int]) as nat == gf_inv(0x1002b, a)
    }

    proof fn lemma_constants()
        ensures
            Self::ORDER == 16,
            Self::HIGH_BIT == 0x8000,
            Self::POLY_BIT == 0x10000,
            Self::FIELD_MASK == 0xffff,
    {
        vstd::arithmetic::power2::lemma2_to64();
        assert(Self::ORDER == 16 && Self::HIGH_BIT == 0x8000 && Self::POLY_BIT == 0x10000
            && Self::FIELD_MASK == 0xffff);
        assert(<u16 as ElementStore>::width() == 16 && <u32 as ElementStore>::width() == 32);
        assert(Self::HIGH_BIT.value() == 0x8000 && Self::POLY_BIT.value() == 0x10000
            && Self::FIELD_MASK.value() == 0xffff);
    }

    proof fn lemma_valid(&self) {
        Self::lemma_constants();
        vstd::arithmetic::power2::lemma2_to64();
    }

    fn poly(&self) -> (r: u16)
        ensures
            r == 0x2b,
    {
        proof {
            vstd::arithmetic::power2::lemma2_to64();
            assert(Self::ORDER == 16);
            assert(0x2bu16.value() == 0x2b);
        }
        0x2b
    }

    fn full_poly(&self) -> (r: u32)
        ensures
            r == 0x1002b,
    {
        proof {
            assert(0x1002bu32.value() == 0x1002b);
        }
        0x1002b
    }

    fn mul(&self, a: u16, b: u16) -> (r: u16) {
        proof {
            assert(a >> 12u16 < 16 && (a >> 8u16) & 0x0f < 16 && (a >> 4u16) & 0x0f < 16 && a
                & 0x0f < 16 && a as nat == 256 * (16 * ((a >> 12u16) as nat) + ((a >> 8u16)
                & 0x0f) as nat) + (16 * (((a >> 4u16) & 0x0f) as nat) + (a & 0x0f) as nat))
                by (bit_vector);
            assert(b >> 8u16 < 256 && b & 0xff < 256 && b as nat == 256 * ((b >> 8u16) as nat) + (b
                & 0xff) as nat) by (bit_vector);
        }
        let a3 = (a >> 12u16) as u8;
        let a2 = ((a >> 8u16) & 0x0f) as u8;
        let a1 = ((a >> 4u16) & 0x0f) as u8;
        let a0 = (a & 0x0f) as u8;
        let b1 = (b >> 8u16) as u8;
        let b0 = (b & 0xff) as u8;
        let hh = self.mull.lrmull(b1, a3, a2);
        let lh = self.mull.lrmull(b0, a3, a2);
        let hl = self.mull.lrmull(b1, a1, a0);
        let ll = self.mull.lrmull(b0, a1, a0);
        let shifted = self.mod_shift_left_8(hh);
        let middle = shifted ^ lh ^ hl;
        let result = self.mod_shift_left_8(middle) ^ ll;
        proof {
            let p: nat = 0x1002b;
            Self::lemma_constants();
            vstd::arithmetic::power2::lemma2_to64();
            assert(a.value() == a as nat && b.value() == b as nat && result.value()
                == result as nat);
            crate::machine::lemma_xor(shifted as u64, lh as u64);
            crate::machine::lemma_xor((shifted ^ lh) as u64, hl as u64);
            crate::machine::lemma_xor(poly_mod(256 * middle as nat, p) as u64, ll as u64);
            lemma_schoolbook(
                p,
                (16 * a3 + a2) as nat,
                (16 * a1 + a0) as nat,
                b1 as nat,
                b0 as nat,
            );
        }
        result
    }

    fn inv(&self, a: u16) -> (r: u16) {
        proof {
            vstd::arithmetic::power2::lemma2_to64();
            Self::lemma_constants();
            assert(a.value() == a as nat);
            crate::poly::lemma_deg_unique(0x1002b, 16);
            if is_unit(0x1002b, a as nat) {
                crate::gf::lemma_gf_inv_of_unit(0x1002b, a as nat);
            }
        }
        let r = self.inv[a as usize];
        proof {
            assert(r.value() == r as nat);
            assert(self.inv@[a as nat as int] as nat == gf_inv(0x1002b, a as nat));
        }
        r
    }

    fn mod_reduce(&self, a: u32) -> (r: u16) {
        proof {
            assert(a.value() == a as nat);
        }
        let r = self.mod_reduce_bytewise(a);
        proof {
            assert(r.value() == r as nat);
            Self::lemma_constants();
            vstd::arithmetic::power2::lemma2_to64();
        }
        r
    }
}

/// GF(2^16) with the polynomial 0x1002b, its tables filled.
pub fn new_gf16_0x1002b() -> (f: F16_0x1002b)
    ensures
        f.valid(),
{
    let field = new_gf16(0x1002b, 0x2b);
    proof {
        vstd::arithmetic::power2::lemma2_to64();
        F16::lemma_constants();
    }
    let mut reduce: Vec<u16> = Vec::with_capacity(256);
    let mut i: u32 = 0;
    while i < 256
        invariant
            i <= 256,
            field.full == 0x1002b,
            field.compact == 0x2b,
            reduce@.len() == i,
            forall|j: nat| j < i ==> (#[trigger] reduce@[j as int]) as nat == poly_mod(65536 * j, 0x1002b),
        decreases 256 - i,
    {
        proof {
            vstd::arithmetic::power2::lemma2_to64();
            F16::lemma_constants();
            assert(i < 256 ==> i << 16u32 == i * 65536) by (bit_vector);
            assert((i << 16u32).value() == 65536 * i as nat);
        }
        let entry = field.mod_reduce(i << 16u32);
        proof {
            assert(entry.value() == entry as nat);
        }
        reduce.push(entry);
        i = i + 1;
    }
    let mut inv: Vec<u16> = Vec::with_capacity(65536);
    fill_inverse(&field, &mut inv, 65535);
    proof {
        assert forall|a: nat| a < 65536 implies (#[trigger] inv@[a as int]) as nat == gf_inv(
            0x1002b,
            a,
        ) by {
            assert(inv@[(0 + a) as int].value() == gf_inv(0x1002b, a));
        }
    }
    F16_0x1002b { mull: MullTable::new(), reduce, inv }
}

} // verus!
