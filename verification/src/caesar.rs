//! The Caesar cipher with an unsigned shift: every letter moves forward by
//! the shift amount, wrapping around the 26-letter alphabet; case is
//! preserved and any other character is rejected.

use crate::utils::{invalid_character, is_alpha_char, is_lower_char, is_upper_char, push_char};
use vstd::prelude::*;
use vstd::string::StrSliceExecFns;

verus! {

/// The letter a shift of `k` (already reduced into `[0, 26)`) sends `c`
/// to, keeping its case.
pub open spec fn caesar_char(c: char, k: int) -> char {
    if is_upper_char(c) {
        ((65 + ((c as u32 - 65 + k) % 26)) as u8) as char
    } else {
        ((97 + ((c as u32 - 97 + k) % 26)) as u8) as char
    }
}

/// Shifts every letter of `text` forward by `shift` positions, wrapping
/// around the alphabet and preserving case; any character outside the
/// alphabet makes the whole text invalid.
pub fn encrypt(text: &str, shift: u32) -> (r: Result<String, String>)
    ensures
        (forall|i: int| 0 <= i < text@.len() ==> is_alpha_char(#[trigger] text@[i])) ==> (
        r matches Ok(s) && s@.len() == text@.len() && (forall|i: int|
            0 <= i < text@.len() ==> s@[i] == caesar_char(
                #[trigger] text@[i],
                (shift % 26) as int,
            ))),
        !(forall|i: int| 0 <= i < text@.len() ==> is_alpha_char(#[trigger] text@[i])) ==> (
        r matches Err(m) && m@ == "Invalid character"@),
{
    let k = shift % 26;
    let n = text.unicode_len();
    let mut out = String::new();
    let mut i: usize = 0;
    while i < n
        invariant
            n == text@.len(),
            i <= n,
            k == shift % 26,
            out@.len() == i,
            forall|j: int| 0 <= j < i ==> is_alpha_char(#[trigger] text@[j]),
            forall|j: int|
                0 <= j < i ==> out@[j] == caesar_char(#[trigger] text@[j], k as int),
        decreases n - i,
    {
        let c = text.get_char(i);
        let code = c as u32;
        if 'a' <= c && c <= 'z' {
            let nc = 97 + ((code - 97 + k) % 26);
            push_char(&mut out, (nc as u8) as char);
        } else if 'A' <= c && c <= 'Z' {
            let nc = 65 + ((code - 65 + k) % 26);
            push_char(&mut out, (nc as u8) as char);
        } else {
            assert(!is_alpha_char(text@[i as int]));
            return Err(invalid_character());
        }
        i = i + 1;
    }
    Ok(out)
}

/// Undoes `encrypt` with the same shift: shifting backward by `shift` is
/// shifting forward by `26 - shift`.
pub fn decrypt(cipher: &str, shift: u32) -> (r: Result<String, String>)
    requires
        shift <= 26,
    ensures
        (forall|i: int| 0 <= i < cipher@.len() ==> is_alpha_char(#[trigger] cipher@[i])) ==> (
        r matches Ok(s) && s@.len() == cipher@.len() && (forall|i: int|
            0 <= i < cipher@.len() ==> s@[i] == caesar_char(
                #[trigger] cipher@[i],
                ((26 - shift) % 26) as int,
            ))),
        !(forall|i: int| 0 <= i < cipher@.len() ==> is_alpha_char(#[trigger] cipher@[i])) ==> (
        r matches Err(m) && m@ == "Invalid character"@),
{
    encrypt(cipher, 26 - shift)
}

/// A shift and its complement undo each other on every letter.
pub proof fn lemma_caesar_round_trip(c: char, shift: u32)
    requires
        is_alpha_char(c),
        shift <= 26,
    ensures
        caesar_char(caesar_char(c, (shift % 26) as int), ((26 - shift) % 26) as int) == c,
{
    let k = (shift % 26) as int;
    let k2 = ((26 - shift) % 26) as int;
    let mid = caesar_char(c, k);
    if is_upper_char(c) {
        assert(mid as u32 == 65 + ((c as u32 - 65 + k) % 26));
        assert(is_upper_char(mid));
        assert((((c as u32 - 65 + k) % 26) + k2) % 26 == 0 ==> true);
        assert(mid as u32 - 65 + k2 == ((c as u32 - 65 + k) % 26) + k2);
        lemma_shift_cancel((c as u32 - 65) as int, shift as int);
    } else {
        assert(mid as u32 == 97 + ((c as u32 - 97 + k) % 26));
        assert(is_lower_char(mid));
        lemma_shift_cancel((c as u32 - 97) as int, shift as int);
    }
}

/// Adding a shift and then its complement leaves an alphabet index where it
/// was.
proof fn lemma_shift_cancel(idx: int, shift: int)
    requires
        0 <= idx < 26,
        0 <= shift <= 26,
    ensures
        (((idx + shift % 26) % 26) + (26 - shift) % 26) % 26 == idx,
{
    let k = shift % 26;
    let k2 = (26 - shift) % 26;
    assert(0 <= k < 26);
    assert(0 <= k2 < 26);
    assert((k + k2) % 26 == 0) by {
        if shift == 0 || shift == 26 {
        } else {
            assert(k == shift && k2 == 26 - shift);
        }
    }
    let m = (idx + k) % 26;
    assert(0 <= m < 26);
    assert((m + k2) % 26 == idx) by {
        vstd::arithmetic::div_mod::lemma_add_mod_noop(idx + k, k2, 26);
        vstd::arithmetic::div_mod::lemma_small_mod(k2 as nat, 26);
        assert((idx + k + k2) % 26 == idx) by {
            if shift == 0 || shift == 26 {
                vstd::arithmetic::div_mod::lemma_small_mod(idx as nat, 26);
                if shift == 26 {
                    vstd::arithmetic::div_mod::lemma_mod_add_multiples_vanish(idx, 26);
                }
            } else {
                vstd::arithmetic::div_mod::lemma_mod_add_multiples_vanish(idx, 26);
            }
        }
    }
}

} // verus!
