use ciphers::affine;
use ciphers::caesar;
use ciphers::caesar_signed;

#[test]
fn test_affine() {
    let text = "hello";
    let cipher = "ctoox";
    let a = 3;
    let b = 7;
    let encrypted_text = affine::encrypt(text, a, b).unwrap();
    assert_eq!(cipher, &encrypted_text);

    let decrypted_text = affine::decrypt(cipher, a, b).unwrap();
    assert_eq!(text, &decrypted_text);
}

#[test]
fn caesar_test() {
    let text = "Hello";
    let cipher = "Rovvy";
    let shift = 10;
    let encrypted_text = caesar::encrypt(text, shift).unwrap();
    assert_eq!(&encrypted_text, cipher);
    let decrypted_text = caesar::decrypt(cipher, shift).unwrap();
    assert_eq!(&decrypted_text, text);

    let non_alphabetic_text = "Hello, World!";
    let err = caesar::encrypt(non_alphabetic_text, shift).unwrap_err();
    assert_eq!(&err, "Invalid character");
}

#[test]
fn caesar_caesar_test() {
    let text = "Hello";
    let cipher = "Rovvy";
    let shift = 10;
    let encrypted_text = caesar_signed::encrypt(text, shift).unwrap();
    assert_eq!(&encrypted_text, cipher);
    let decrypted_text = caesar_signed::decrypt(cipher, shift).unwrap();
    assert_eq!(&decrypted_text, text);

    // negative shift
    let shift = -1;
    let cipher = "Gdkkn";
    let encrypted_text = caesar_signed::encrypt(text, shift).unwrap();
    let decrypted_text = caesar_signed::decrypt(cipher, shift).unwrap();
    assert_eq!(&encrypted_text, cipher);
    assert_eq!(&decrypted_text, text);

    let non_alphabetic_text = "Hello, World!";
    let err = caesar_signed::encrypt(non_alphabetic_text, shift).unwrap_err();
    assert_eq!(&err, "Invalid character");
}
