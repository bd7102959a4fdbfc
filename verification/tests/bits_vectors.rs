use rhdl::bits::Bits;

#[test]
fn test_mask() {
    let bits = Bits::<128>::mask();
    assert_eq!(bits.0, u128::MAX);
    let bits = Bits::<32>::mask();
    assert_eq!(bits.0, 0xFFFF_FFFF_u128);
}

#[test]
fn test_xor() {
    let bits = Bits::<128>::mask();
    assert!(!bits.xor());
    let bits = Bits::<32>::mask();
    assert!(!bits.xor());
    let bits = Bits::<1>::mask();
    assert!(bits.xor());
    let bits: Bits<5> = Bits::from(0b11010);
    assert!(bits.xor());
}

#[test]
fn test_all() {
    let bits = Bits::<128>::mask();
    assert!(bits.all());
    let bits = Bits::<32>::mask();
    assert!(bits.all());
    let bits = Bits::<1>::mask();
    assert!(bits.all());
    let bits: Bits<5> = Bits::from(0b11111);
    assert!(bits.all());
    let bits: Bits<5> = Bits::from(0b11110);
    assert!(!bits.all());
}

#[test]
fn test_any() {
    let bits = Bits::<128>::mask();
    assert!(bits.any());
    let bits = Bits::<32>::mask();
    assert!(bits.any());
    let bits = Bits::<1>::mask();
    assert!(bits.any());
    let bits: Bits<5> = Bits::from(0b11111);
    assert!(bits.any());
    let bits: Bits<5> = Bits::from(0b00000);
    assert!(!bits.any());
}

#[test]
fn test_set_bit() {
    let mut bits = Bits::<128>::mask();
    bits.set_bit(0, false);
    assert_eq!(bits.0, u128::MAX - 1);
    bits.set_bit(0, true);
    assert_eq!(bits.0, u128::MAX);
    bits.set_bit(127, false);
    assert_eq!(bits.0, u128::MAX - (1 << 127));
    bits.set_bit(127, true);
    assert_eq!(bits.0, u128::MAX);
    bits.set_bit(64, false);
    assert_eq!(bits.0, u128::MAX - (1 << 64));
    bits.set_bit(64, true);
    assert_eq!(bits.0, u128::MAX);
    bits.set_bit(32, false);
    assert_eq!(bits.0, u128::MAX - (1 << 32));
    bits.set_bit(32, true);
    assert_eq!(bits.0, u128::MAX);
    bits.set_bit(16, false);
    assert_eq!(bits.0, u128::MAX - (1 << 16));
    bits.set_bit(16, true);
    assert_eq!(bits.0, u128::MAX);
    bits.set_bit(8, false);
    assert_eq!(bits.0, u128::MAX - (1 << 8));
    bits.set_bit(8, true);
    assert_eq!(bits.0, u128::MAX);
    bits.set_bit(4, false);
    assert_eq!(bits.0, u128::MAX - (1 << 4));
    bits.set_bit(4, true);
    assert_eq!(bits.0, u128::MAX);
    bits.set_bit(2, false);
    assert_eq!(bits.0, u128::MAX - (1 << 2));
    bits.set_bit(2, true);
    assert_eq!(bits.0, u128::MAX);
    bits.set_bit(1, false);
    assert_eq!(bits.0, u128::MAX - (1 << 1));
    bits.set_bit(1, true);
    assert_eq!(bits.0, u128::MAX);
}

#[test]
fn test_get_bit() {
    let bits = Bits::<128>::mask();
    assert!(bits.get_bit(0));
    assert!(bits.get_bit(127));
    assert!(bits.get_bit(64));
    assert!(bits.get_bit(32));
    assert!(bits.get_bit(16));
    assert!(bits.get_bit(8));
    assert!(bits.get_bit(4));
    assert!(bits.get_bit(2));
    assert!(bits.get_bit(1));
    let bits = Bits::<32>::mask();
    assert!(bits.get_bit(0));
    assert!(bits.get_bit(31));
    assert!(bits.get_bit(16));
    assert!(bits.get_bit(8));
    assert!(bits.get_bit(4));
    assert!(bits.get_bit(2));
    assert!(bits.get_bit(1));
    let bits = Bits::<1>::mask();
    assert!(bits.get_bit(0));
    let bits: Bits<5> = Bits::from(0b11010);
    assert!(bits.get_bit(4));
    assert!(bits.get_bit(3));
    assert!(!bits.get_bit(2));
    assert!(bits.get_bit(1));
    assert!(!bits.get_bit(0));
}

#[test]
fn test_binary_format() {
    let bits: Bits<8> = Bits::from(0b1101_1010);
    assert_eq!(bits.to_binary_string(), "11011010");
}

#[test]
fn test_hex_format() {
    let bits: Bits<8> = Bits::from(0b1101_1010);
    assert_eq!(bits.to_hex_string(), "da");
    assert_eq!(bits.to_upper_hex_string(), "DA");
}

#[test]
fn test_slice_function() {
    let bits: Bits<8> = Bits::from(0b1101_1010);
    let result = bits.slice::<4>(0);
    assert_eq!(result.0, 0b1010);
    let result = bits.slice::<4>(4);
    assert_eq!(result.0, 0b1101);
    let result = bits.slice::<2>(6);
    assert_eq!(result.0, 0b11);
}

#[test]
fn test_round_trip_unsigned_signed() {
    let bits: Bits<8> = Bits::from(0b1101_1010);
    let signed = bits.as_signed();
    println!("{}", signed.0);
    assert!(signed.is_negative());
    let unsigned = signed.as_unsigned();
    assert_eq!(bits.0, unsigned.0);
    let signed = unsigned.as_signed();
    assert!(signed.is_negative());
}

#[test]
fn test_signed_value() {
    let bits: Bits<8> = Bits::from(0b1101_1010);
    let signed = bits.as_signed();
    assert_eq!(signed.0, -38);
    let bits: Bits<8> = Bits::from(0x5A);
    let signed = bits.as_signed();
    assert_eq!(signed.0, 0x5A);
}
