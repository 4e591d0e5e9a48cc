use guff::bitwise::{field_inv, field_mul, long_mul, reduce};
use guff::good::{fill_inverse, new_gf4_0x13, FullMulLUT};
use guff::{new_gf4, new_gf8, GaloisField, F4, F8};

#[test]
fn bit_serial_product_values() {
    assert_eq!(field_mul(8, 0x1b, 0x53, 0xca), 1);
    assert_eq!(field_mul(8, 0x1b, 0x57, 0x83), 0xc1);
    assert_eq!(field_mul(8, 0x1b, 0x80, 0x02), 0x1b);
    assert_eq!(field_mul(8, 0x1d, 0x80, 0x02), 0x1d);
    assert_eq!(field_mul(4, 3, 0b0010, 0b0011), 0b0110);
    assert_eq!(field_mul(4, 3, 8, 2), 3);
    assert_eq!(field_mul(4, 3, 15, 15), 10);
    assert_eq!(field_mul(2, 3, 2, 2), 3);
    assert_eq!(field_mul(2, 3, 3, 3), 2);
    assert_eq!(field_mul(16, 0x2b, 0x8000, 2), 0x2b);
    assert_eq!(field_mul(32, 0x8d, 0x8000_0000, 2), 0x8d);
    assert_eq!(field_mul(32, 0x8d, 0xffff_ffff, 1), 0xffff_ffff);
    assert_eq!(field_mul(32, 0x8d, 0xffff_ffff, 0), 0);
}

#[test]
fn long_product_values() {
    assert_eq!(long_mul(8, 0x53, 0xca), 0x3f7e);
    assert_eq!(long_mul(8, 0xff, 0xff), 0x5555);
    assert_eq!(long_mul(4, 0b0010, 0b0011), 0b0110);
    assert_eq!(long_mul(4, 0, 9), 0);
    assert_eq!(long_mul(4, 9, 0), 0);
    assert_eq!(long_mul(4, 1, 9), 9);
    assert_eq!(long_mul(32, 0x8000_0000, 0x8000_0000), 0x4000_0000_0000_0000);
    assert_eq!(long_mul(32, 0xffff_ffff, 0xffff_ffff), 0x5555_5555_5555_5555);
    assert_eq!(long_mul(16, 0x1234, 2), 0x2468);
}

#[test]
fn remainder_values() {
    assert_eq!(reduce(8, 0x11b, 0x3f7e), 1);
    assert_eq!(reduce(8, 0x11b, 0x100), 0x1b);
    assert_eq!(reduce(8, 0x11b, 0x11b), 0);
    assert_eq!(reduce(8, 0x11b, 0xff), 0xff);
    assert_eq!(reduce(8, 0x11b, 0), 0);
    assert_eq!(reduce(8, 0x11b, 0x8000), field_mul(8, 0x1b, 0x80, field_mul(8, 0x1b, 0x80, 2)));
    assert_eq!(reduce(4, 0x13, 0x10), 3);
    assert_eq!(reduce(4, 0x13, 0xff), 0x0d);
    assert_eq!(reduce(32, 0x1_0000_008d, 0x1_0000_0000), 0x8d);
    assert_eq!(reduce(32, 0x1_0000_008d, 0x1_0000_008d), 0);
    for a in 0..=255u64 {
        for b in 0..=255u64 {
            assert_eq!(reduce(8, 0x11b, long_mul(8, a, b)), field_mul(8, 0x1b, a, b));
        }
    }
}

#[test]
fn inverse_values() {
    assert_eq!(field_inv(8, 0x1b, 0), 0);
    assert_eq!(field_inv(8, 0x1b, 1), 1);
    assert_eq!(field_inv(8, 0x1b, 0x53), 0xca);
    assert_eq!(field_inv(8, 0x1b, 0xca), 0x53);
    assert_eq!(field_inv(8, 0x1b, 2), 0x8d);
    assert_eq!(field_inv(4, 3, 2), 9);
    assert_eq!(field_inv(4, 3, 9), 2);
    assert_eq!(field_inv(2, 3, 2), 3);
    for k in [4u32, 8, 16].iter() {
        let poly: u64 = match *k {
            4 => 3,
            8 => 0x1b,
            _ => 0x2b,
        };
        for a in 1..(1u64 << *k) {
            let z = field_inv(*k, poly, a);
            assert_eq!(field_mul(*k, poly, a, z), 1);
            assert_eq!(field_inv(*k, poly, z), a);
        }
    }
    // x^16 + x^8 + x^6 + x^2 + 1 is the square of x^8 + x^4 + x^3 + x + 1:
    // what that divides has no inverse, the rest has
    assert_eq!(field_inv(16, 0x0145, 0x11b), 0);
    assert_eq!(field_inv(16, 0x0145, 0x236), 0);
    assert_eq!(field_inv(16, 0x0145, 2), 32930);
    assert_eq!(field_mul(16, 0x0145, 2, 32930), 1);
}

#[test]
fn full_table_and_inverse_vector() {
    let f = new_gf4(19, 3);
    let lut = FullMulLUT::<F4>::new(&f);
    for a in 0..16u8 {
        for b in 0..16u8 {
            assert_eq!(lut.mul(a, b), f.mul(a, b));
        }
    }
    let f8 = new_gf8(0x11b, 0x1b);
    let lut8 = FullMulLUT::<F8>::new(&f8);
    assert_eq!(lut8.mul(0x53, 0xca), 1);
    assert_eq!(lut8.mul(0xff, 0xff), f8.mul(0xff, 0xff));
    let mut v: Vec<u8> = vec![7, 7];
    fill_inverse(&f, &mut v, 15);
    assert_eq!(v.len(), 18);
    assert_eq!(&v[..5], &[7, 7, 0, 1, 9]);
    for a in 1..16usize {
        assert_eq!(f.mul(a as u8, v[2 + a]), 1);
    }
    let mut w: Vec<u8> = Vec::new();
    fill_inverse(&f8, &mut w, 0);
    assert_eq!(w, vec![0]);
    let g = new_gf4_0x13();
    assert_eq!(g.pow(5, 3), g.mul(5, g.mul(5, 5)));
    assert_eq!(g.div(1, 2), 9);
    assert_eq!(g.inv(0), 0);
}
