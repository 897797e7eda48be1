use ciphers::des::Des;
use ciphers::hex::Hex;

#[test]
fn test_ip() {
    let key = Hex::new(b"hi").unwrap();
    let des = Des::new(key.as_u64());
    let plain_text = Hex::new(b"hello").unwrap();
    let ip_output = des.initial_permutation(plain_text.as_u64());
    assert_eq!(ip_output, 17870547822688397440u64);
}

#[test]
fn test_pc1() {
    let mut des = Des::new(26729u64);
    let pc1_output = des.perm_choice_1(26729u64);
    assert_eq!(pc1_output, 211930866256896u64);
}

#[test]
fn test_pc2() {
    let mut des = Des::new(26729u64);
    let pc2_output = des.perm_choice_2(26729u64);
    assert_eq!(pc2_output, 49496u64);
}

#[test]
fn test_left_rotation() {
    let mut des = Des::new(26729u64);
    let left_rotation_output = des.left_rotation(26729u32, 1);
    assert_eq!(left_rotation_output, 53458u32);
}

#[test]
fn test_encrypt() {
    let mut des = Des::new(26729u64);
    let plain_text = Hex::new(b"hello").unwrap();
    let encrypted_text = des.encrypt(plain_text.as_u64());
    assert_eq!(format!("{:X}", encrypted_text), "A74BCE81F3679AEF");

    let plain_text = Hex::new(b"world").unwrap();
    let encrypted_text = des.encrypt(plain_text.as_u64());
    assert_eq!(format!("{:X}", encrypted_text), "BAFFC2305F333606");
}

#[test]
fn test_decrypt() {
    let mut des = Des::new(26729u64);
    let cipher_text = Hex::new(b"A74BCE81F3679AEF").unwrap();
    let decrypted_text = des.decrypt(cipher_text.as_u64());

    let plain_text = Hex::new(b"hello").unwrap();
    assert_eq!(format!("{:X}", decrypted_text), plain_text.encode_upper());
}
