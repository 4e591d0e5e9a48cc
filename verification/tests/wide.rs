use guff::good::{new_gf16_0x1002b, new_gf8_0x11b, BigLogExpTables, NotAGenerator};
use guff::mull::{lmull, lrmull, rmull, MullTable};
use guff::{new_gf16, new_gf32, new_gf4, new_gf8, GaloisField, F8};

#[test]
fn f16_mul_matches_bit_serial_on_small_operands() {
    let plain = new_gf16(0x1002b, 0x2b);
    let good = new_gf16_0x1002b();
    for a in 0..1024u16 {
        for b in 0..1024u16 {
            assert_eq!(good.mul(a, b), plain.mul(a, b), "a = {}, b = {}", a, b);
        }
    }
}

#[test]
fn f16_mul_matches_bit_serial_across_byte_boundaries() {
    let plain = new_gf16(0x1002b, 0x2b);
    let good = new_gf16_0x1002b();
    let marks: [u16; 16] = [
        0, 1, 2, 255, 256, 257, 511, 512, 1023, 1024, 4095, 4096, 0x7fff, 0x8000, 0xfffe, 0xffff,
    ];
    for a in marks.iter() {
        for b in 0..=0xffffu16 {
            assert_eq!(good.mul(*a, b), plain.mul(*a, b));
            assert_eq!(good.mul(b, *a), plain.mul(b, *a));
        }
    }
}

#[test]
fn f16_inv_matches_bit_serial_everywhere() {
    let plain = new_gf16(0x1002b, 0x2b);
    let good = new_gf16_0x1002b();
    for a in 0..=0xffffu16 {
        assert_eq!(good.inv(a), plain.inv(a));
    }
}

#[test]
fn f16_inverse_times_element_is_one() {
    let good = new_gf16_0x1002b();
    assert_eq!(good.inv(0), 0);
    for a in 1..=0xffffu16 {
        assert_eq!(good.mul(a, good.inv(a)), 1);
    }
}

#[test]
fn f16_mod_reduce_bytewise_matches_bit_serial() {
    let plain = new_gf16(0x1002b, 0x2b);
    let good = new_gf16_0x1002b();
    for x in 0..0x4_0000u32 {
        assert_eq!(good.mod_reduce_bytewise(x), plain.mod_reduce(x));
    }
    let mut x: u32 = 0xffff_ffff;
    for _ in 0..200_000 {
        assert_eq!(good.mod_reduce_bytewise(x), plain.mod_reduce(x));
        assert_eq!(good.mod_reduce(x), plain.mod_reduce(x));
        x = x.wrapping_mul(1664525).wrapping_add(1013904223);
    }
}

#[test]
fn f16_mod_shift_left_8_is_multiplication_by_x8() {
    let plain = new_gf16(0x1002b, 0x2b);
    let good = new_gf16_0x1002b();
    for v in 0..=0xffffu16 {
        assert_eq!(good.mod_shift_left_8(v), plain.mul(v, 0x100));
    }
    assert_eq!(good.mod_shift_left_8(0x0100), 0x2b);
}

#[test]
fn f16_mul_is_reduced_long_mul() {
    let good = new_gf16_0x1002b();
    let mut a: u16 = 1;
    let mut b: u16 = 0xbeef;
    for _ in 0..20_000 {
        assert_eq!(good.mul(a, b), good.mod_reduce(good.mull(a, b)));
        a = a.wrapping_mul(75).wrapping_add(74);
        b = b.wrapping_mul(25173).wrapping_add(13849);
    }
}

#[test]
fn f8_0x11b_pow_conformance() {
    let f8 = new_gf8(0x11b, 0x1b);
    let f8_0x11b = new_gf8_0x11b().unwrap();
    for a in 0..=255u8 {
        for b in 0..=600u16 {
            assert_eq!(f8_0x11b.pow(a, b), f8.pow(a, b), "a = {}, b = {}", a, b);
        }
        for b in [0xfffeu16, 0xffff, 0x8000, 255 * 256, 255 * 257].iter() {
            assert_eq!(f8_0x11b.pow(a, *b), f8.pow(a, *b));
        }
    }
}

#[test]
fn f8_0x11b_div_and_pow_of_zero() {
    let f = new_gf8_0x11b().unwrap();
    assert_eq!(f.pow(0, 0), 1);
    assert_eq!(f.pow(0, 255), 1);
    assert_eq!(f.pow(0, 1), 0);
    assert_eq!(f.pow(0, 256), 0);
    assert_eq!(f.inv(0), 0);
    for i in 0..=255u8 {
        assert_eq!(f.div(i, 0), 0);
        assert_eq!(f.mul(i, 0), 0);
        assert_eq!(f.mul(0, i), 0);
    }
    assert_eq!(f.mul(0x53, 0xCA), 1);
    assert_eq!(f.inv(0x53), 0xCA);
    assert_eq!(f.div(1, 0x53), 0xCA);
    assert_eq!(f.pow(3, 255), 1);
    assert_eq!(f.pow(3, 254), f.inv(3));
}

#[test]
fn log_tables_refuse_what_is_no_generator() {
    let f = new_gf8(0x11b, 0x1b);
    assert!(matches!(BigLogExpTables::<F8>::new(&f, 2), Err(NotAGenerator)));
    assert!(matches!(BigLogExpTables::<F8>::new(&f, 0), Err(NotAGenerator)));
    assert!(matches!(BigLogExpTables::<F8>::new(&f, 1), Err(NotAGenerator)));
    assert!(BigLogExpTables::<F8>::new(&f, 3).is_ok());
    let primitive = new_gf8(0x11d, 0x1d);
    assert!(BigLogExpTables::<F8>::new(&primitive, 2).is_ok());
    // x^8, which is reducible: nothing generates
    let reducible = new_gf8(0x100, 0x00);
    assert!(BigLogExpTables::<F8>::new(&reducible, 3).is_err());
}

#[test]
fn log_tables_to_another_base_agree_with_bit_serial() {
    let f = new_gf8(0x11d, 0x1d);
    let tables = BigLogExpTables::<F8>::new(&f, 2).unwrap();
    for a in 0..=255u8 {
        assert_eq!(tables.inv(a), f.inv(a));
        assert_eq!(tables.pow(a, 77), f.pow(a, 77));
        for b in 0..=255u8 {
            assert_eq!(tables.mul(a, b), f.mul(a, b));
        }
    }
}

#[test]
fn inverse_of_what_has_none_is_zero() {
    // x^4 is reducible: x has no inverse modulo it
    let f = new_gf4(0x10, 0x00);
    assert_eq!(f.inv(2), 0);
    assert_eq!(f.inv(4), 0);
    assert_eq!(f.inv(1), 1);
    assert_eq!(f.inv(3), 3 ^ 4 ^ 8);
    assert_eq!(f.div(5, 2), 0);
    // x^8 + 1 = (x + 1)^8
    let g = new_gf8(0x101, 0x01);
    assert_eq!(g.inv(3), 0);
    assert_eq!(g.inv(2), 0x80);
}

#[test]
fn long_multiplication_and_reduction_values() {
    let f4 = new_gf4(19, 3);
    assert_eq!(f4.mull(0b0010, 0b0011), 0b0110);
    assert_eq!(f4.mod_reduce(0b0110), 0b0110);
    assert_eq!(f4.mull(0b1111, 0b1111), 0b101_0101);
    assert_eq!(f4.mod_reduce(0b101_0101), f4.mul(15, 15));
    assert_eq!(f4.mod_reduce(0x10), 3);
    assert_eq!(f4.mod_reduce(0xff), 0x0d);
    let f8 = new_gf8(0x11b, 0x1b);
    assert_eq!(f8.mull(0x53, 0xCA), 0x3f7e);
    assert_eq!(f8.mod_reduce(0x3f7e), 1);
    assert_eq!(f8.mod_reduce(0x100), 0x1b);
    assert_eq!(f8.mod_reduce(0xffff), f8.mul(f8.mod_reduce(0xff00), 1) ^ 0xff);
    let f32 = new_gf32(0x1_0000_008d, 0x8d);
    assert_eq!(f32.mull(0xffff_ffff, 0xffff_ffff), 0x5555_5555_5555_5555);
    assert_eq!(f32.mod_reduce(0x1_0000_0000), 0x8d);
    assert_eq!(f32.mul(0x8000_0000, 2), 0x8d);
    for a in [0u32, 1, 2, 0x8d, 0xdead_beef, 0xffff_ffff].iter() {
        for b in [0u32, 1, 3, 0x8000_0000, 0x1234_5678, 0xffff_ffff].iter() {
            assert_eq!(f32.mul(*a, *b), f32.mod_reduce(f32.mull(*a, *b)));
        }
    }
}

#[test]
fn wide_fields_invert_and_raise() {
    let f16 = new_gf16(0x1002b, 0x2b);
    for a in [1u16, 2, 3, 0x2b, 0x8000, 0xabcd, 0xffff].iter() {
        assert_eq!(f16.mul(*a, f16.inv(*a)), 1);
        assert_eq!(f16.pow(*a, 0xffff), 1);
        assert_eq!(f16.pow(*a, 0x10000), *a);
        assert_eq!(f16.pow(*a, 0), 1);
        assert_eq!(f16.pow(*a, 3), f16.mul(*a, f16.mul(*a, *a)));
    }
    let f32 = new_gf32(0x1_0000_008d, 0x8d);
    for a in [1u32, 2, 3, 0x8d, 0x8000_0000, 0xdead_beef, 0xffff_ffff].iter() {
        assert_eq!(f32.mul(*a, f32.inv(*a)), 1);
        assert_eq!(f32.inv(f32.inv(*a)), *a);
        assert_eq!(f32.pow(*a, 0), 1);
        assert_eq!(f32.pow(*a, 1), *a);
        assert_eq!(f32.pow(*a, 5), f32.mul(f32.pow(*a, 4), *a));
        assert_eq!(f32.pow(*a, 0xffff_ffff), 1);
        assert_eq!(f32.pow(*a, 0x1_0000_0000), *a);
    }
    assert_eq!(f32.inv(0), 0);
    assert_eq!(f32.div(7, 0), 0);
}

#[test]
fn algebraic_identities_in_gf256() {
    let f = new_gf8(0x11b, 0x1b);
    for a in 0..=255u8 {
        assert_eq!(f.mul(a, 1), a);
        assert_eq!(f.mul(a, 0), 0);
        assert_eq!(f.add(a, 0), a);
        assert_eq!(f.add(a, a), 0);
        assert_eq!(f.sub(a, 0x35), a ^ 0x35);
        for b in 0..=255u8 {
            assert_eq!(f.mul(a, b), f.mul(b, a));
            assert_eq!(f.mul(f.add(a, b), 0x57), f.add(f.mul(a, 0x57), f.mul(b, 0x57)));
            assert_eq!(f.mul(f.mul(a, b), 0x83), f.mul(a, f.mul(b, 0x83)));
        }
    }
}

#[test]
fn exponent_laws_in_gf256() {
    let f = new_gf8(0x11b, 0x1b);
    for a in 0..=255u8 {
        assert_eq!(f.pow(a, 0), 1);
        assert_eq!(f.pow(a, 255), 1);
        assert_eq!(f.pow(a, 256), a);
        for n in 1..255u16 {
            assert_eq!(f.pow(a, n), f.mul(f.pow(a, n - 1), a));
        }
    }
    // at a multiple of the group order the recurrence holds for every element but 0
    for a in 1..=255u8 {
        assert_eq!(f.pow(a, 255), f.mul(f.pow(a, 254), a));
        assert_eq!(f.pow(a, 510), f.mul(f.pow(a, 509), a));
    }
    assert_eq!(f.mul(f.pow(0, 254), 0), 0);
    assert_eq!(f.pow(3, 255), 1);
    assert_eq!(f.pow(3, 256), 3);
}

#[test]
fn vector_operations() {
    let f = new_gf8(0x11b, 0x1b);
    let a: Vec<u8> = vec![0x53, 0x01, 0x00, 0xff, 0x80];
    let b: Vec<u8> = vec![0xca, 0x02, 0x77, 0xff, 0x02];
    assert_eq!(f.vec_sum_elements(&a), 0x53 ^ 0x01 ^ 0xff ^ 0x80);
    assert_eq!(f.vec_sum_elements(&[]), 0);

    let mut dest = a.clone();
    f.vec_add_vec_in_place(&mut dest, &b);
    assert_eq!(dest, vec![0x99, 0x03, 0x77, 0x00, 0x82]);

    let mut dest = vec![0u8; 5];
    f.vec_add_vecs_giving_other(&mut dest, &a, &b);
    assert_eq!(dest, vec![0x99, 0x03, 0x77, 0x00, 0x82]);

    let mut dest = vec![0u8; 5];
    f.vec_cross_product(&mut dest, &a, &b);
    assert_eq!(dest, vec![0x01, 0x02, 0x00, f.mul(0xff, 0xff), 0x1b]);

    assert_eq!(f.vec_dot_product(&a, &b), 0x01 ^ 0x02 ^ f.mul(0xff, 0xff) ^ 0x1b);
    assert_eq!(f.vec_dot_product(&[], &[]), 0);

    let mut dest = a.clone();
    f.vec_constant_scale_in_place(&mut dest, 2);
    assert_eq!(dest, vec![0xa6, 0x02, 0x00, 0xe5, 0x1b]);

    let mut dest = a.clone();
    f.vec_fma_in_place(&mut dest, 2, 0x0f);
    assert_eq!(dest, vec![0xa9, 0x0d, 0x0f, 0xea, 0x14]);
}

#[test]
fn vector_operations_through_tables() {
    let plain = new_gf16(0x1002b, 0x2b);
    let good = new_gf16_0x1002b();
    let a: Vec<u16> = vec![0xffff, 0x0100, 0x8000, 0x1234, 0];
    let b: Vec<u16> = vec![0xffff, 0x0100, 0x0002, 0xabcd, 0x7777];
    let mut want = vec![0u16; 5];
    let mut got = vec![0u16; 5];
    plain.vec_cross_product(&mut want, &a, &b);
    good.vec_cross_product(&mut got, &a, &b);
    assert_eq!(want, got);
    assert_eq!(got[1], 0x002b);
    assert_eq!(plain.vec_dot_product(&a, &b), good.vec_dot_product(&a, &b));
    assert_eq!(good.pow(0x1234, 77), plain.pow(0x1234, 77));
    assert_eq!(good.div(0x1234, 0xabcd), plain.div(0x1234, 0xabcd));
}

#[test]
fn constants_and_accessors() {
    let f4 = new_gf4(19, 3);
    assert_eq!((f4.order(), f4.high_bit(), f4.field_mask()), (4, 0x08, 0x0f));
    assert_eq!((f4.poly(), f4.full_poly()), (3, 19));
    let f8 = new_gf8(0x11b, 0x1b);
    assert_eq!((f8.order(), f8.high_bit(), f8.field_mask()), (8, 0x80, 0xff));
    assert_eq!(F8::POLY_BIT, 0x100);
    let f16 = new_gf16(0x1002b, 0x2b);
    assert_eq!((f16.order(), f16.high_bit(), f16.field_mask()), (16, 0x8000, 0xffff));
    let f32 = new_gf32(0x1_0000_008d, 0x8d);
    assert_eq!((f32.order(), f32.high_bit(), f32.field_mask()), (32, 0x8000_0000, 0xffff_ffff));
    assert_eq!((f32.poly(), f32.full_poly()), (0x8d, 0x1_0000_008d));
    let g16 = new_gf16_0x1002b();
    assert_eq!((g16.order(), g16.poly(), g16.full_poly()), (16, 0x2b, 0x1002b));
    let g8 = new_gf8_0x11b().unwrap();
    assert_eq!((g8.order(), g8.poly(), g8.full_poly()), (8, 0x1b, 0x11b));
}

#[test]
fn nibble_products() {
    assert_eq!(rmull(0xff, 0x0f), 0x0505);
    assert_eq!(rmull(0x80, 0x08), 0x0400);
    assert_eq!(rmull(0x00, 0x0f), 0);
    assert_eq!(rmull(0xab, 0x00), 0);
    assert_eq!(rmull(0xab, 0x01), 0xab);
    assert_eq!(lmull(0xff, 0x0f), 0x5050);
    assert_eq!(lrmull(0xff, 0xff), 0x5555);
    assert_eq!(lrmull(0x53, 0xca), 0x3f7e);
    let table = MullTable::new();
    assert_eq!(table.len(), 4096);
    for big in 0..=255u8 {
        for small in 0..16u8 {
            assert_eq!(table.rmull(big, small), rmull(big, small));
            assert_eq!(table.lmull(big, small), lmull(big, small));
            assert_eq!(table.lrmull(big, small, 15 - small), lrmull(big, (small << 4) | (15 - small)));
        }
    }
}

#[test]
fn products_of_bytes_make_a_product_of_words() {
    let a: u32 = 0x1234_5678;
    let b: u8 = 0x9a;
    let a3: u8 = (a >> 24) as u8;
    let a2: u8 = (a >> 16) as u8;
    let a1: u8 = (a >> 8) as u8;
    let a0: u8 = a as u8;
    let b1 = b >> 4;
    let b0 = b & 0x0f;
    let mut result: u64 = 0;
    result ^= (rmull(a0, b0) as u64) << 0;
    result ^= (rmull(a1, b0) as u64) << 8;
    result ^= (rmull(a2, b0) as u64) << 16;
    result ^= (rmull(a3, b0) as u64) << 24;
    result ^= (rmull(a0, b1) as u64) << 4;
    result ^= (rmull(a1, b1) as u64) << 12;
    result ^= (rmull(a2, b1) as u64) << 20;
    result ^= (rmull(a3, b1) as u64) << 28;
    let f = new_gf32(0x1_0000_008d, 0x8d);
    assert_eq!(result, f.mull(a, b.into()));
}
