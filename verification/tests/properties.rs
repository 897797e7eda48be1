use ciphers::bits::Bits;
use ciphers::des::Des;
use ciphers::gcd::{egcd, gcd};
use ciphers::hex::{Hex, HexError};
use ciphers::trivium::Trivium;
use ciphers::utils::{alphabet_size_i32, get_char_at_index, get_char_index};

#[test]
fn xor_with_itself_is_zero() {
    let bits = Bits::new(&[1, 0, 1, 1, 0, 0, 1, 0, 1]).unwrap();
    let zeroed = bits.xor(&bits).unwrap();
    assert_eq!(zeroed, vec![0, 0, 0, 0, 0, 0, 0, 0, 0]);
}

#[test]
fn block_cipher_round_trip() {
    let mut des = Des::new(0xDEAD_BEEF_0BAD_F00D);
    let plain: u64 = 0x0123_4567_89AB_CDEF;
    let cipher = des.encrypt(plain);
    assert_ne!(cipher, plain);
    assert_eq!(des.decrypt(cipher), plain);
}

#[test]
fn hex_round_trip_covers_small_bytes() {
    let bytes: Vec<u8> = vec![0x00, 0x0F, 0xA5, 0x01, 0xFF];
    let hex = Hex::new(&bytes).unwrap();
    let text = hex.encode_upper();
    assert_eq!(text, "000FA501FF");
    let decoded = Hex::new(text.as_bytes()).unwrap();
    assert_eq!(decoded.as_slice(), bytes.as_slice());
}

#[test]
fn hex_to_bytes_rejects_non_digits() {
    let err = Hex::hex_to_bytes(b"zz").unwrap_err();
    assert_eq!(err, HexError::InvalidHexString);
    let ok = Hex::hex_to_bytes(b"0aFf").unwrap();
    assert_eq!(ok, vec![0x0A, 0xFF]);
}

#[test]
fn empty_and_partial_bit_groups() {
    let bits = Bits::new(&[]).unwrap();
    assert_eq!(bits.to_bit_string(), "");
    assert_eq!(bits.as_vec_bytes(), Vec::<u8>::new());

    // nine bits: one full byte and a trailing single bit
    let bits = Bits::new(&[1, 0, 0, 0, 0, 0, 0, 1, 1]).unwrap();
    assert_eq!(bits.as_vec_bytes(), vec![0x81, 1]);

    let mut bits = Bits::new(&[1, 1, 0, 0]).unwrap();
    bits.shift_right(4);
    assert_eq!(bits.to_bit_string(), "0000");
}

#[test]
fn bits_insert_push_reverse() {
    let mut bits = Bits::new(&[1, 0]).unwrap();
    bits.insert(1, 1);
    bits.push(0);
    assert_eq!(bits.to_bit_string(), "1100");
    // a single group of fewer than 8 bits is its own byte-group reversal
    assert_eq!(bits.reverse(), vec![1, 1, 0, 0]);
    assert_eq!(bits.get_bit(0), 1);
    assert_eq!(bits.len(), 4);

    // two groups swap as wholes; the bits inside each keep their order
    let bits = Bits::new(&[1, 1, 1, 1, 1, 1, 1, 1, 0, 0, 0, 0]).unwrap();
    assert_eq!(bits.reverse(), vec![0, 0, 0, 0, 1, 1, 1, 1, 1, 1, 1, 1]);
}

#[test]
fn gcd_of_zero_keeps_sign_convention() {
    // the recursive form hands a zero divisor's partner back unchanged,
    // the iterative form always answers with the magnitude
    assert_eq!(gcd(-5, 0), -5);
    assert_eq!(ciphers::gcd::gcdi(-5, 0), 5);
    assert_eq!(gcd(0, 7), 7);
}

#[test]
fn egcd_satisfies_bezout() {
    let (g, x, y) = egcd(240, 46);
    assert_eq!(g, 2);
    assert_eq!(240 * x + 46 * y, g);
}

#[test]
fn alphabet_helpers() {
    assert_eq!(alphabet_size_i32(), 26);
    assert_eq!(get_char_index('c').unwrap(), 2);
    assert_eq!(get_char_index('C').unwrap_err(), "Invalid character");
    assert_eq!(get_char_at_index(25).unwrap(), 'z');
    assert_eq!(get_char_at_index(26).unwrap_err(), "Invalid character");
}

#[test]
fn caesar_full_wrap_is_identity() {
    assert_eq!(ciphers::caesar::encrypt("abc", 26).unwrap(), "abc");
    assert_eq!(ciphers::caesar::encrypt("xyz", 3).unwrap(), "abc");
    assert_eq!(ciphers::caesar_signed::encrypt("abc", -3).unwrap(), "xyz");
}

#[test]
fn affine_rejects_bad_key() {
    // 13 shares a factor with 26, so no inverse exists
    let err = ciphers::affine::decrypt("abc", 13, 5).unwrap_err();
    assert_eq!(err, "Modular inverse does not exist");
}

#[test]
fn stream_cipher_keystream_masks_plaintext() {
    let key_hex = Hex::new(b"80000000000000000000").unwrap();
    let iv_hex = Hex::new(b"00000000000000000000").unwrap();
    let mut trivium = Trivium::new(&key_hex.to_bits_lsb(), &iv_hex.to_bits_lsb()).unwrap();
    trivium.warm_up();
    trivium.build_key_stream(8);
    let keystream = trivium.key_stream.as_slice().to_vec();
    let plain = [1u8, 0, 1, 0, 1, 0, 1, 0];
    let cipher = trivium.encrypt(&plain).unwrap();
    for i in 0..8 {
        assert_eq!(cipher[i], plain[i] ^ keystream[i]);
    }
    let recovered = trivium.decrypt(&cipher).unwrap();
    assert_eq!(recovered.as_slice(), &plain[..]);
}
