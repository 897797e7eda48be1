//! The Affine cipher over the lowercase alphabet: a letter at index `x`
//! maps to index `(a*x + b) mod 26`; decryption multiplies by the modular
//! inverse of `a`, which must exist for the key to be usable.

use crate::gcd::egcd_spec;
use crate::mod_inverse::{mod_inverse, mod_inverse_val};
use crate::utils::{get_char_at_index, get_char_index, is_lower_char, push_char, rem26};
use vstd::prelude::*;
use vstd::string::StrSliceExecFns;

verus! {

/// The letter the affine key `(a, b)` sends a lowercase letter to.
pub open spec fn affine_enc_char(c: char, a: int, b: int) -> char {
    ((97 + ((a * (c as u32 - 97) + b) % 26)) as u8) as char
}

/// The letter the affine decryption with inverse `ainv` and offset `b`
/// sends a lowercase letter to.
pub open spec fn affine_dec_char(c: char, ainv: int, b: int) -> char {
    ((97 + ((ainv * (c as u32 - 97 - b)) % 26)) as u8) as char
}

/// Affine cipher encryption: maps the index `x` of every lowercase letter
/// to `(a*x + b) mod 26`; any other character makes the text invalid.
pub fn encrypt(text: &str, a: i32, b: i32) -> (r: Result<String, String>)
    ensures
        (forall|i: int| 0 <= i < text@.len() ==> is_lower_char(#[trigger] text@[i])) ==> (
        r matches Ok(s) && s@.len() == text@.len() && (forall|i: int|
            0 <= i < text@.len() ==> s@[i] == affine_enc_char(
                #[trigger] text@[i],
                a as int,
                b as int,
            ))),
        !(forall|i: int| 0 <= i < text@.len() ==> is_lower_char(#[trigger] text@[i])) ==> (
        r matches Err(m) && m@ == "Invalid character"@),
{
    let n = text.unicode_len();
    let mut out = String::new();
    let mut i: usize = 0;
    while i < n
        invariant
            n == text@.len(),
            i <= n,
            out@.len() == i,
            forall|j: int| 0 <= j < i ==> is_lower_char(#[trigger] text@[j]),
            forall|j: int|
                0 <= j < i ==> out@[j] == affine_enc_char(#[trigger] text@[j], a as int, b as int),
        decreases n - i,
    {
        let c = text.get_char(i);
        let index = match get_char_index(c) {
            Ok(v) => v,
            Err(e) => {
                return Err(e);
            },
        };
        proof {
            assert(0 <= index <= 25);
            assert(-0x400_0000_0000 <= (a as int) * (index as int) <= 0x400_0000_0000)
                by (nonlinear_arith)
                requires
                    -0x8000_0000 <= a as int <= 0x7FFF_FFFF,
                    0 <= index as int <= 25,
            ;
        }
        let v = rem26((a as i64) * (index as i64) + (b as i64));
        proof {
            assert((a as i64) as int * (index as i64) as int + (b as i64) as int == a as int * (
            c as u32 - 97) + b as int);
        }
        let new_char = match get_char_at_index(v as i32) {
            Ok(ch) => ch,
            Err(e) => {
                return Err(e);
            },
        };
        push_char(&mut out, new_char);
        i = i + 1;
    }
    Ok(out)
}

/// Affine cipher decryption: multiplies the shifted index of every
/// lowercase letter by the modular inverse of `a`; fails up front when that
/// inverse does not exist, and on any character outside the alphabet.
pub fn decrypt(cipher: &str, a: i32, b: i32) -> (r: Result<String, String>)
    requires
        a != i32::MIN,
    ensures
        egcd_spec(a as int, 26).0 > 1 ==> (r matches Err(m) && m@
            == "Modular inverse does not exist"@),
        egcd_spec(a as int, 26).0 <= 1 && (forall|i: int|
            0 <= i < cipher@.len() ==> is_lower_char(#[trigger] cipher@[i])) ==> (r matches Ok(s)
            && s@.len() == cipher@.len() && (forall|i: int|
            0 <= i < cipher@.len() ==> s@[i] == affine_dec_char(
                #[trigger] cipher@[i],
                mod_inverse_val(a as int, 26),
                b as int,
            ))),
        egcd_spec(a as int, 26).0 <= 1 && !(forall|i: int|
            0 <= i < cipher@.len() ==> is_lower_char(#[trigger] cipher@[i])) ==> (r matches Err(m)
            && m@ == "Invalid character"@),
{
    let a_inverse = match mod_inverse(a, 26) {
        Ok(v) => v,
        Err(e) => {
            return Err(e);
        },
    };
    let ghost ainv = mod_inverse_val(a as int, 26);
    proof {
        crate::gcd::lemma_truncated_div_mod(
            crate::gcd::tmod(egcd_spec(a as int, 26).1, 26) + 26,
            26,
        );
        assert(crate::gcd::mag(ainv) < 26);
    }
    let n = cipher.unicode_len();
    let mut out = String::new();
    let mut i: usize = 0;
    while i < n
        invariant
            n == cipher@.len(),
            i <= n,
            a_inverse == ainv,
            ainv == mod_inverse_val(a as int, 26),
            egcd_spec(a as int, 26).0 <= 1,
            crate::gcd::mag(ainv) < 26,
            out@.len() == i,
            forall|j: int| 0 <= j < i ==> is_lower_char(#[trigger] cipher@[j]),
            forall|j: int|
                0 <= j < i ==> out@[j] == affine_dec_char(#[trigger] cipher@[j], ainv, b as int),
        decreases n - i,
    {
        let c = cipher.get_char(i);
        let index = match get_char_index(c) {
            Ok(v) => v,
            Err(e) => {
                return Err(e);
            },
        };
        proof {
            assert(0 <= index <= 25);
            assert(-0x400_0000_0000 <= (a_inverse as int) * ((index as int) - (b as int))
                <= 0x400_0000_0000) by (nonlinear_arith)
                requires
                    -26 <= a_inverse as int <= 26,
                    0 <= index as int <= 25,
                    -0x8000_0000 <= b as int <= 0x7FFF_FFFF,
            ;
        }
        let v = rem26((a_inverse as i64) * ((index as i64) - (b as i64)));
        proof {
            assert((a_inverse as i64) as int * ((index as i64) as int - (b as i64) as int) == ainv
                * (c as u32 - 97 - b as int));
        }
        let new_char = match get_char_at_index(v as i32) {
            Ok(ch) => ch,
            Err(e) => {
                return Err(e);
            },
        };
        push_char(&mut out, new_char);
        i = i + 1;
    }
    Ok(out)
}

} // verus!
