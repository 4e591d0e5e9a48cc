use guff::good::{new_gf4_0x13, new_gf8_0x11b};
use guff::{new_gf4, new_gf8, GaloisField};

#[test]
fn test_f4_0x13_mul_conformance() {
    let f4 = new_gf4(19, 3);
    let f4_0x13 = new_gf4_0x13();
    let mut fails = 0;
    for i in 0..16 {
        for j in 0..16 {
            if f4.mul(i, j) != f4_0x13.mul(i, j) {
                fails += 1;
            }
        }
    }
    assert_eq!(fails, 0);
}

#[test]
fn test_f4_0x13_inv_conformance() {
    let f4 = new_gf4(19, 3);
    let f4_0x13 = new_gf4_0x13();
    let mut fails = 0;
    for i in 0..16 {
        if f4.inv(i) != f4_0x13.inv(i) {
            fails += 1;
        }
    }
    assert_eq!(fails, 0);
}

#[test]
fn test_f8_0x11b_mul_conformance() {
    let f8 = new_gf8(0x11b, 0x1b);
    let f8_0x11b = new_gf8_0x11b().unwrap();
    let mut fails = 0;
    for i in 0..=255 {
        for j in 0..=255 {
            if f8.mul(i, j) != f8_0x11b.mul(i, j) {
                fails += 1;
            }
        }
    }
    assert_eq!(fails, 0);
}

#[test]
fn test_f8_0x11b_inv_conformance() {
    let f8 = new_gf8(0x11b, 0x1b);
    let f8_0x11b = new_gf8_0x11b().unwrap();
    let mut fails = 0;
    for i in 0..=255 {
        if f8.inv(i) != f8_0x11b.inv(i) {
            println!("Failed inv({})", i);
            assert_eq!(f8.inv(i), f8_0x11b.inv(i), "(ref vs good");
            fails += 1;
        }
    }
    assert_eq!(fails, 0);
}
