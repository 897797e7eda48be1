//! The lowercase Latin alphabet shared by the substitution ciphers:
//! character classification, the index of a letter, the letter at an index,
//! and small helpers for Euclidean reduction and string building.

use vstd::arithmetic::div_mod::{
    lemma_fundamental_div_mod, lemma_fundamental_div_mod_converse_mod,
};
use vstd::prelude::*;
use vstd::string::StringExecFns;

verus! {

/// The character is a lowercase Latin letter.
pub open spec fn is_lower_char(c: char) -> bool {
    'a' <= c && c <= 'z'
}

/// The character is an uppercase Latin letter.
pub open spec fn is_upper_char(c: char) -> bool {
    'A' <= c && c <= 'Z'
}

/// The character is a Latin letter of either case.
pub open spec fn is_alpha_char(c: char) -> bool {
    is_lower_char(c) || is_upper_char(c)
}

/// The number of letters in the alphabet, as a signed 32-bit value.
pub fn alphabet_size_i32() -> (r: i32)
    ensures
        r == 26,
{
    26
}

/// The error text every cipher reports for a character outside the
/// alphabet.
pub(crate) fn invalid_character() -> (r: String)
    ensures
        r@ == "Invalid character"@,
{
    String::from_str("Invalid character")
}

/// Appends one character to a string.
///
/// Relies on `String::push`, which appends the given character at the end
/// of the string and changes nothing else.
#[verifier::external_body]
pub(crate) fn push_char(s: &mut String, c: char)
    ensures
        final(s)@ == old(s)@.push(c),
{
    s.push(c);
}

/// The position of a lowercase letter in the alphabet; any other character
/// is invalid.
pub fn get_char_index(c: char) -> (r: Result<i32, String>)
    ensures
        is_lower_char(c) ==> (r matches Ok(i) && i == c as u32 - 97),
        !is_lower_char(c) ==> (r matches Err(m) && m@ == "Invalid character"@),
{
    if 'a' <= c && c <= 'z' {
        Ok((c as u32) as i32 - 97)
    } else {
        Err(invalid_character())
    }
}

/// The lowercase letter at a position in the alphabet; positions outside
/// `[0, 26)` are invalid.
pub fn get_char_at_index(index: i32) -> (r: Result<char, String>)
    ensures
        0 <= index < 26 ==> (r matches Ok(c) && c as u32 == 97 + index && is_lower_char(c)),
        !(0 <= index < 26) ==> (r matches Err(m) && m@ == "Invalid character"@),
{
    if 0 <= index && index < 26 {
        let c = ((97 + index) as u8) as char;
        Ok(c)
    } else {
        Err(invalid_character())
    }
}

/// The Euclidean remainder of a 64-bit value by the alphabet size: always
/// in `[0, 26)`, also for negative input.
pub(crate) fn rem26(x: i64) -> (r: i64)
    requires
        -0x1_0000_0000_0000 < x < 0x1_0000_0000_0000,
    ensures
        r == (x as int) % 26,
        0 <= r < 26,
{
    let xm: u64 = if x < 0 {
        (-x) as u64
    } else {
        x as u64
    };
    let ru = xm % 26;
    proof {
        lemma_fundamental_div_mod(xm as int, 26);
        let q = xm as int / 26;
        if x >= 0 {
            assert(x as int == q * 26 + ru);
            lemma_fundamental_div_mod_converse_mod(x as int, 26, q, ru as int);
        } else {
            if ru == 0 {
                assert(x as int == (-q) * 26 + 0) by (nonlinear_arith)
                    requires
                        -x == 26 * q + 0,
                ;
                lemma_fundamental_div_mod_converse_mod(x as int, 26, -q, 0);
            } else {
                assert(x as int == (-q - 1) * 26 + (26 - ru)) by (nonlinear_arith)
                    requires
                        (-x) as int == 26 * q + ru,
                ;
                lemma_fundamental_div_mod_converse_mod(x as int, 26, -q - 1, 26 - ru as int);
            }
        }
    }
    if x >= 0 {
        ru as i64
    } else if ru == 0 {
        0
    } else {
        26 - ru as i64
    }
}

} // verus!
