//! Products of a polynomial of eight coefficients and one of four, without
//! reduction: the fragments that wider products are put together from.
//!
//! The free functions compute a product; [`MullTable`] holds all 4096 of them
//! for the fields that look them up.

use crate::bitwise::long_mul;
use crate::machine::{lemma_xor};
use crate::poly::{
    lemma_add_disjoint, lemma_mul_bound, lemma_mul_distrib_right, lemma_mul_shift, poly_mul,
};
use vstd::prelude::*;

verus! {

/// Product of `big` and the nibble `small`.
pub fn rmull(big: u8, small: u8) -> (r: u16)
    requires
        small < 16,
    ensures
        r == poly_mul(big as nat, small as nat),
        r < 4096,
{
    proof {
        vstd::arithmetic::power2::lemma2_to64();
        lemma_mul_bound(8, 4, big as nat, small as nat);
    }
    long_mul(8, big as u64, small as u64) as u16
}

/// Product of `big` and the nibble `small`, the nibble taken as the high half
/// of a byte: the product times `x^4`.
pub fn lmull(big: u8, small: u8) -> (r: u16)
    requires
        small < 16,
    ensures
        r == 16 * poly_mul(big as nat, small as nat),
        r == poly_mul(big as nat, 16 * small as nat),
{
    let out = rmull(big, small);
    proof {
        vstd::arithmetic::power2::lemma2_to64();
        lemma_mul_shift(4, big as nat, small as nat);
        vstd::bits::lemma_u16_shl_is_mul(out, 4);
    }
    out << 4u16
}

/// Product of `big` and the byte `small`, put together from the products of
/// `big` and the two nibbles of `small`.
pub fn lrmull(big: u8, small: u8) -> (r: u16)
    ensures
        r == poly_mul(big as nat, small as nat),
{
    proof {
        assert(small >> 4u8 < 16 && small & 0x0f < 16 && small as nat == 16 * ((small >> 4u8) as nat)
            + (small & 0x0f) as nat) by (bit_vector);
    }
    let l_out = lmull(big, small >> 4u8);
    let r_out = rmull(big, small & 0x0f);
    proof {
        let l = (small >> 4u8) as nat;
        let r = (small & 0x0f) as nat;
        vstd::arithmetic::power2::lemma2_to64();
        lemma_xor(l_out as u64, r_out as u64);
        // small = x^4 l + r
        lemma_add_disjoint(4, r, l);
        lemma_mul_distrib_right(big as nat, r, 16 * l);
        crate::poly::lemma_add_comm(l_out as nat, r_out as nat);
    }
    l_out ^ r_out
}

/// All the products of a byte and a nibble: the entry at `(small << 8) | big`
/// is the product of `big` and `small`.
pub struct MullTable {
    entries: Vec<u16>,
}

impl MullTable {
    /// The table is complete and every entry is the product it stands for.
    pub closed spec fn wf(&self) -> bool {
        &&& self.entries@.len() == 4096
        &&& forall|big: nat, small: nat|
            big < 256 && small < 16 ==> (#[trigger] self.entries@[(small * 256 + big) as int])
                == poly_mul(big, small)
    }

    /// The table, computed entry by entry.
    pub fn new() -> (t: Self)
        ensures
            t.wf(),
    {
        let mut entries: Vec<u16> = Vec::with_capacity(4096);
        let mut small: u8 = 0;
        while small < 16
            invariant
                small <= 16,
                entries@.len() == small * 256,
                forall|b: nat, s: nat|
                    b < 256 && s < small ==> (#[trigger] entries@[(s * 256 + b) as int]) == poly_mul(
                        b,
                        s,
                    ),
            decreases 16 - small,
        {
            let mut big: u16 = 0;
            while big < 256
                invariant
                    small < 16,
                    big <= 256,
                    entries@.len() == small * 256 + big,
                    forall|b: nat, s: nat|
                        b < 256 && s < small ==> (#[trigger] entries@[(s * 256 + b) as int])
                            == poly_mul(b, s),
                    forall|b: nat|
                        b < big ==> (#[trigger] entries@[(small * 256 + b) as int]) == poly_mul(
                            b,
                            small as nat,
                        ),
                decreases 256 - big,
            {
                let ghost before = entries@;
                entries.push(rmull(big as u8, small));
                proof {
                    assert forall|b: nat, s: nat| b < 256 && s < small implies (
                    #[trigger] entries@[(s * 256 + b) as int]) == poly_mul(b, s) by {
                        assert(entries@[(s * 256 + b) as int] == before[(s * 256 + b) as int]);
                    }
                    assert forall|b: nat| b < big + 1 implies (#[trigger] entries@[(small * 256
                        + b) as int]) == poly_mul(b, small as nat) by {
                        if b < big {
                            assert(entries@[(small * 256 + b) as int] == before[(small * 256
                                + b) as int]);
                        }
                    }
                }
                big = big + 1;
            }
            small = small + 1;
        }
        MullTable { entries }
    }

    /// The number of entries.
    pub fn len(&self) -> (n: usize)
        requires
            self.wf(),
        ensures
            n == 4096,
    {
        self.entries.len()
    }

    /// Product of `big` and the nibble `small`.
    pub fn rmull(&self, big: u8, small: u8) -> (r: u16)
        requires
            self.wf(),
            small < 16,
        ensures
            r == poly_mul(big as nat, small as nat),
            r < 4096,
    {
        proof {
            assert(small < 16 ==> (((small as u16) << 8u16) ^ (big as u16)) == (small as u16) * 256
                + (big as u16)) by (bit_vector);
            vstd::arithmetic::power2::lemma2_to64();
            lemma_mul_bound(8, 4, big as nat, small as nat);
            assert(self.entries@[(small as nat * 256 + big as nat) as int] == poly_mul(
                big as nat,
                small as nat,
            ));
        }
        let index = (((small as u16) << 8u16) ^ (big as u16)) as usize;
        self.entries[index]
    }

    /// Product of `big` and the nibble `small`, times `x^4`.
    pub fn lmull(&self, big: u8, small: u8) -> (r: u16)
        requires
            self.wf(),
            small < 16,
        ensures
            r == 16 * poly_mul(big as nat, small as nat),
            r == poly_mul(big as nat, 16 * small as nat),
    {
        let out = self.rmull(big, small);
        proof {
            vstd::arithmetic::power2::lemma2_to64();
            lemma_mul_shift(4, big as nat, small as nat);
            vstd::bits::lemma_u16_shl_is_mul(out, 4);
        }
        out << 4u16
    }

    /// Product of `big` and the byte whose nibbles are `high` and `low`.
    pub fn lrmull(&self, big: u8, high: u8, low: u8) -> (r: u16)
        requires
            self.wf(),
            high < 16,
            low < 16,
        ensures
            r == poly_mul(big as nat, (16 * high + low) as nat),
    {
        let l_out = self.lmull(big, high);
        let r_out = self.rmull(big, low);
        proof {
            vstd::arithmetic::power2::lemma2_to64();
            lemma_xor(l_out as u64, r_out as u64);
            lemma_add_disjoint(4, low as nat, high as nat);
            lemma_mul_distrib_right(big as nat, low as nat, 16 * high as nat);
            crate::poly::lemma_add_comm(l_out as nat, r_out as nat);
        }
        l_out ^ r_out
    }
}

} // verus!
