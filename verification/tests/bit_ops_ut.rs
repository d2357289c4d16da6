use hips_lib::bit_ops::{BitBuffer, BitOps};

#[test]
fn set_lsb_ut() {
    assert_eq!(1, 0.set_lsb(true));
    assert_eq!(0, 0.set_lsb(false));
    assert_eq!(0, 1.set_lsb(false));
    assert_eq!(1, 1.set_lsb(true));

    assert_eq!(254, 255.set_lsb(false));
    assert_eq!(255, 255.set_lsb(true));
}

#[test]
fn get_lsb_ut() {
    assert!(1.get_lsb());
    assert!(!0.get_lsb());
    assert!(11.get_lsb());
    assert!(!22.get_lsb());
}

#[test]
fn set_bit_ut() {
    // Test setting the last bit
    assert_eq!(0b1000_0000, 0b0000_0000.set_bit(7, true));
    assert_eq!(0b0000_0000, 0b1000_0000.set_bit(7, false));
    assert_eq!(0b1000_0000, 0b1000_0000.set_bit(7, true));
    assert_eq!(0b0000_0000, 0b0000_0000.set_bit(7, false));

    // Test setting first bits
    assert_eq!(0b0000_0001, 0b0000_0000.set_bit(0, true));
    assert_eq!(0b0000_0000, 0b0000_0001.set_bit(0, false));
    assert_eq!(0b0000_0001, 0b0000_0001.set_bit(0, true));
    assert_eq!(0b0000_0000, 0b0000_0000.set_bit(0, false));

    // Test setting some random bits
    assert_eq!(0b0000_1000, 0b0000_0000.set_bit(3, true));
    assert_eq!(0b0110_1000, 0b0100_1000.set_bit(5, true));
    assert_eq!(0b0000_0000, 0b0000_1000.set_bit(3, false));
    assert_eq!(0b1100_1011, 0b1100_1111.set_bit(2, false));
}

#[test]
fn get_bit_ut() {
    assert!(0b0000_0001.get_bit(0));
    assert!(0b0000_0010.get_bit(1));
    assert!(0b0000_0100.get_bit(2));
    assert!(0b0000_1000.get_bit(3));
    assert!(0b0001_0000.get_bit(4));
    assert!(0b0010_0000.get_bit(5));
    assert!(0b0100_0000.get_bit(6));
    assert!(0b1000_0000.get_bit(7));
}

#[test]
fn to_bit_buffer_ut() {
    let bits = 0b1011_0010u8.to_bit_buffer();
    assert_eq!(
        vec![false, true, false, false, true, true, false, true],
        bits
    );
    assert_eq!(vec![false; 8], 0u8.to_bit_buffer());
    assert_eq!(vec![true; 8], 255u8.to_bit_buffer());
}
