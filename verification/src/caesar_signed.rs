//! The Caesar cipher with a signed shift: a negative shift is first folded
//! forward by one alphabet length, and the remaining reduction is
//! Euclidean, so moderate negative shifts move letters backward.

use crate::utils::{invalid_character, is_alpha_char, is_upper_char, push_char, rem26};
use vstd::prelude::*;
use vstd::string::StrSliceExecFns;

verus! {

/// The shift actually applied: a negative request is folded forward once.
pub open spec fn folded_shift(shift: int) -> int {
    if shift < 0 {
        26 + shift
    } else {
        shift
    }
}

/// The letter a signed shift sends `c` to, keeping its case; the index is
/// reduced with the Euclidean remainder.
pub open spec fn caesar_signed_char(c: char, shift: int) -> char {
    if is_upper_char(c) {
        ((65 + ((c as u32 - 65 + folded_shift(shift)) % 26)) as u8) as char
    } else {
        ((97 + ((c as u32 - 97 + folded_shift(shift)) % 26)) as u8) as char
    }
}

/// Shifts every letter of `text` by `shift` positions, which may be
/// negative, wrapping around the alphabet and preserving case; any
/// character outside the alphabet makes the whole text invalid.
pub fn encrypt(text: &str, shift: i32) -> (r: Result<String, String>)
    ensures
        (forall|i: int| 0 <= i < text@.len() ==> is_alpha_char(#[trigger] text@[i])) ==> (
        r matches Ok(s) && s@.len() == text@.len() && (forall|i: int|
            0 <= i < text@.len() ==> s@[i] == caesar_signed_char(
                #[trigger] text@[i],
                shift as int,
            ))),
        !(forall|i: int| 0 <= i < text@.len() ==> is_alpha_char(#[trigger] text@[i])) ==> (
        r matches Err(m) && m@ == "Invalid character"@),
{
    let shift2: i32 = if shift < 0 {
        26 + shift
    } else {
        shift
    };
    let n = text.unicode_len();
    let mut out = String::new();
    let mut i: usize = 0;
    while i < n
        invariant
            n == text@.len(),
            i <= n,
            shift2 == folded_shift(shift as int),
            out@.len() == i,
            forall|j: int| 0 <= j < i ==> is_alpha_char(#[trigger] text@[j]),
            forall|j: int|
                0 <= j < i ==> out@[j] == caesar_signed_char(#[trigger] text@[j], shift as int),
        decreases n - i,
    {
        let c = text.get_char(i);
        let code = c as u32;
        if 'a' <= c && c <= 'z' {
            let v = rem26((code as i64 - 97) + (shift2 as i64));
            push_char(&mut out, ((97 + v as u32) as u8) as char);
        } else if 'A' <= c && c <= 'Z' {
            let v = rem26((code as i64 - 65) + (shift2 as i64));
            push_char(&mut out, ((65 + v as u32) as u8) as char);
        } else {
            assert(!is_alpha_char(text@[i as int]));
            return Err(invalid_character());
        }
        i = i + 1;
    }
    Ok(out)
}

/// Undoes `encrypt` with the same shift: shifting backward by `shift` is
/// shifting forward by `26 - shift`.
pub fn decrypt(cipher: &str, shift: i32) -> (r: Result<String, String>)
    requires
        shift >= 26 - i32::MAX,
    ensures
        (forall|i: int| 0 <= i < cipher@.len() ==> is_alpha_char(#[trigger] cipher@[i])) ==> (
        r matches Ok(s) && s@.len() == cipher@.len() && (forall|i: int|
            0 <= i < cipher@.len() ==> s@[i] == caesar_signed_char(
                #[trigger] cipher@[i],
                26 - shift,
            ))),
        !(forall|i: int| 0 <= i < cipher@.len() ==> is_alpha_char(#[trigger] cipher@[i])) ==> (
        r matches Err(m) && m@ == "Invalid character"@),
{
    encrypt(cipher, 26 - shift)
}

} // verus!
