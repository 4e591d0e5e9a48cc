use guff::mull::{lmull, lrmull, rmull};

#[test]
fn mull_as_shift() {
    for byte in 0u8..=255 {
        for bit in 0..4 {
            assert_eq!(rmull(byte, 1 << bit), (byte as u16) << bit);
        }
    }
}

#[test]
fn lmull_vs_rmull() {
    for byte in 0u8..=255 {
        for nibble in 0u8..16 {
            assert_eq!(lmull(byte, nibble), rmull(byte, nibble) << 4);
        }
    }
}

#[test]
fn lrmull_vs_lmull_rmull() {
    for byte in 0u8..=255 {
        for l in 0u8..16 {
            for r in 0u8..16 {
                let combined: u8 = (l << 4) | r;
                assert_eq!(lrmull(byte, combined), lmull(byte, l) ^ rmull(byte, r));
            }
        }
    }
}
