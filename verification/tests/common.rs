use ciphers::bits::{Bits, BitsError};
use ciphers::hex::Hex;

#[test]
fn test_bits() {
    // "01101000 01101001" is "hi" in ascii
    let mut bits = Bits::new(&[0, 1, 1, 0, 1, 0, 0, 0, 0, 1, 1, 0, 1, 0, 0, 1]).unwrap();
    let slice = bits.as_slice();
    assert_eq!(slice, &[0, 1, 1, 0, 1, 0, 0, 0, 0, 1, 1, 0, 1, 0, 0, 1][..]);
    assert_eq!(bits.to_bit_string(), "0110100001101001");
    assert_eq!(bits.to_grouped_bit_string(), "01101000 01101001");

    bits.update_bit(0, 1);
    assert_eq!(bits.to_bit_string(), "1110100001101001");

    bits.shift_left(1);
    assert_eq!(bits.to_bit_string(), "11101000011010010");

    bits.shift_right(2);
    assert_eq!(bits.to_bit_string(), "00111010000110100");

    let hex = Hex::new(b"hello").unwrap();
    let bits = Bits::from_hex(&hex);
    assert_eq!(
        bits.to_bit_string(),
        "0110100001100101011011000110110001101111"
    );

    let hex = Hex::new(b"38EB86FF73").unwrap();
    let bits = Bits::from_hex(&hex);
    assert_eq!(
        bits.to_bit_string(),
        "0011100011101011100001101111111101110011"
    );

    let mut bits = Bits::new(&[1, 1, 1, 1, 0, 0, 0, 0, 0, 0, 0, 0, 1, 1, 1, 1]).unwrap();

    bits.reverse_mut();

    assert_eq!(bits.to_bit_string(), "0000111111110000");
}

#[test]
fn test_bits_error() {
    let bits = Bits::new(&[1, 1, 1, 1, 0, 0, 0, 0, 0, 0, 0, 0, 1, 1, 1, 2]).unwrap_err();
    assert_eq!(bits, BitsError::InvalidBit(2));

    // test length mismatch
    let bits = Bits::new(&[1, 1, 1, 1, 0, 0, 0, 0]).unwrap();
    let bits2 = Bits::new(&[1, 1, 1, 1, 0, 0, 0, 0, 0, 0, 0, 0, 1, 1, 1, 1]).unwrap();
    let err = bits.xor(&bits2).unwrap_err();
    assert_eq!(err, BitsError::LengthMismatch);
}

#[test]
fn test_hex() {
    let text = "hello";
    let hex_string = "68656C6C6F";
    let hex = Hex::new(text.as_bytes()).unwrap();
    assert_eq!(hex.encode_upper(), hex_string);

    let bits = hex.to_bits_msb();
    assert_eq!(
        bits,
        vec![
            0, 1, 1, 0, 1, 0, 0, 0, 0, 1, 1, 0, 0, 1, 0, 1, 0, 1, 1, 0, 1, 1, 0, 0, 0, 1, 1, 0, 1,
            1, 0, 0, 0, 1, 1, 0, 1, 1, 1, 1
        ]
    );

    let hex = Hex::new(&[0x68, 0x65, 0x6C, 0xFD, 0xFA]).unwrap();
    assert_eq!(hex.encode_upper(), "68656CFDFA");
}

#[test]
fn test_hex_to_u64() {
    let hex = Hex::new(b"68656CFDFA").unwrap();
    assert_eq!(hex.as_u64(), 448378240506);
}
