use ciphers::gcd::{egcd, egcdi, gcd, gcdi};
use ciphers::lcg::LCG;
use ciphers::mod_inverse::mod_inverse;

#[test]
fn test_mod_inverse() {
    assert_eq!(mod_inverse(3, 26).unwrap(), 9);
    assert_eq!(
        mod_inverse(2, 26).unwrap_err(),
        "Modular inverse does not exist".to_string()
    );
}

#[test]
fn test_gcd() {
    assert_eq!(gcd(14, 15), 1);
    assert_eq!(gcd(216, 111), 3);
    assert_eq!(gcd(216, -111), 3);
    assert_eq!(gcd(-216, -111), 3);

    assert_eq!(gcdi(15, 14), 1);
    assert_eq!(gcdi(216, 111), 3);
    assert_eq!(gcdi(216, -111), 3);
    assert_eq!(gcdi(-216, -111), 3);
}

#[test]
fn test_egcd() {
    let (gcd, x_p, y_p) = egcd(35, 15);

    assert_eq!(gcd, 5);
    assert_eq!(x_p, 1);
    assert_eq!(y_p, -2);

    let (gcd, x_p, y_p) = egcd(222, 97);
    assert_eq!(gcd, 1);
    assert_eq!(x_p, -45);
    assert_eq!(y_p, 103);
}

#[test]
fn test_egcdi() {
    let (gcd, x_p, y_p) = egcdi(35, 15);

    assert_eq!(gcd, 5);
    assert_eq!(x_p, 1);
    assert_eq!(y_p, -2);
}

#[test]
fn test_lcg() {
    let mut lcg = LCG::new(312, 100000, 70495, 24245);

    let random_number = lcg.next();

    assert_eq!(random_number, 18685);

    let expected_numbers = vec![23320, 67645, 58520];

    for expected_number in expected_numbers {
        let random_number = lcg.next();
        assert_eq!(random_number, expected_number);
    }

    let mut lcg = LCG::new(2u64.pow(10), 2u64.pow(32) - 1, 12345, 678910);

    let random_number = lcg.next();

    assert_eq!(random_number, 13320190);

    let random_number = lcg.next();

    assert_eq!(random_number, 1229667250);
}
