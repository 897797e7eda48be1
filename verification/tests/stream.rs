use ciphers::bits::{Bits, BitsError};
use ciphers::hex::Hex;
use ciphers::trivium::{Trivium, TriviumError};

#[test]
fn test_trivium() {
    let plain_text = "hello";
    let plain_text_hex = Hex::new(plain_text.as_bytes()).unwrap();
    let key_hex = Hex::new(b"80000000000000000000").unwrap();
    let iv_hex = Hex::new(b"00000000000000000000").unwrap();
    let key_bits = key_hex.to_bits_lsb();
    let iv_bits = iv_hex.to_bits_lsb();

    assert_eq!(key_bits.len(), 80);
    assert_eq!(iv_bits.len(), 80);

    let mut trivium = Trivium::new(&key_bits, &iv_bits).unwrap();
    trivium.warm_up();
    assert_eq!(trivium.count, 1152);

    let plain_text_bits = plain_text_hex.to_bits_lsb();
    trivium.build_key_stream(plain_text_bits.len());

    // the key stream is in lsb-first order, so its bytes come out reversed
    // relative to the published msb-first form 38EB86FF73
    assert_eq!(
        Hex::new(&trivium.key_stream.as_vec_bytes()).unwrap().encode_upper(),
        "73FF86EB38"
    );

    let cipher: Vec<u8> = trivium.encrypt(&plain_text_bits).unwrap();
    let cipher_bits = Bits::new(&cipher).unwrap();
    // msb-first form of the cipher text: 508EEA931C
    assert_eq!(
        Hex::new(&cipher_bits.as_vec_bytes()).unwrap().encode_upper(),
        "1C93EA8E50"
    );

    let plain_text_decrypted = trivium.decrypt(&cipher).unwrap();
    assert_eq!(plain_text_decrypted, plain_text_bits);
}

#[test]
fn test_trivium_errors() {
    let key_hex = Hex::new(b"800").unwrap();
    let iv_hex = Hex::new(b"00000000000000000000").unwrap();
    let key_bits = key_hex.to_bits_lsb();
    let iv_bits = iv_hex.to_bits_lsb();

    let trivium = Trivium::new(&key_bits, &iv_bits).unwrap_err();
    assert_eq!(trivium, TriviumError::InvalidKeyLength(24));

    let key_hex = Hex::new(b"80000000000000000000").unwrap();
    let iv_hex = Hex::new(b"0000").unwrap();
    let key_bits = key_hex.to_bits_lsb();
    let iv_bits = iv_hex.to_bits_lsb();

    let trivium = Trivium::new(&key_bits, &iv_bits).unwrap_err();
    assert_eq!(trivium, TriviumError::InvalidIVLength(16));

    let key_hex = Hex::new(b"80000000000000000000").unwrap();
    let iv_hex = Hex::new(b"00000000000000000000").unwrap();
    let key_bits = key_hex.to_bits_lsb();
    let iv_bits = iv_hex.to_bits_lsb();

    let mut trivium = Trivium::new(&key_bits, &iv_bits).unwrap();
    let err = trivium.encrypt(&[0, 1, 2]).unwrap_err();
    assert_eq!(err, TriviumError::NotWarmedUp);

    let err = trivium.decrypt(&[0, 1, 2]).unwrap_err();
    assert_eq!(err, TriviumError::NotWarmedUp);

    trivium.warm_up();
    let err = trivium.encrypt(&[0, 1, 2]).unwrap_err();
    assert_eq!(err, TriviumError::BitsError(BitsError::InvalidBit(2)));

    let err = trivium.decrypt(&[0, 1, 2]).unwrap_err();
    assert_eq!(err, TriviumError::BitsError(BitsError::InvalidBit(2)));
}
