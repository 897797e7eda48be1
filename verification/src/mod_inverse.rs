//! Modular inverses through the extended Euclidean algorithm: for `a` and a
//! modulus `m` with gcd 1, the Bezout coefficient of `a`, brought into the
//! range `[0, m)`.

use crate::gcd::{egcd, egcd_spec, lemma_egcd_bezout, lemma_egcd_bounds, lemma_truncated_div_mod,
    mag, tmod};
use vstd::arithmetic::div_mod::{lemma_mod_multiples_vanish, lemma_small_mod};
use vstd::math::max;
use vstd::prelude::*;
use vstd::string::StringExecFns;

verus! {

/// The inverse candidate: the Bezout coefficient of `a` reduced into
/// `[0, m)` by two truncated remainders, exactly as the function computes
/// it.
pub open spec fn mod_inverse_val(a: int, m: int) -> int {
    tmod(tmod(egcd_spec(a, m).1, m) + m, m)
}

/// Truncated remainder of two 64-bit machine integers, computed on the
/// magnitudes.
fn tmod64(x: i64, m: i64) -> (r: i64)
    requires
        x != i64::MIN,
        m != i64::MIN,
        m != 0,
    ensures
        r == tmod(x as int, m as int),
{
    let xm: u64 = if x < 0 {
        (-x) as u64
    } else {
        x as u64
    };
    let mm: u64 = if m < 0 {
        (-m) as u64
    } else {
        m as u64
    };
    let ru = xm % mm;
    if x < 0 {
        -(ru as i64)
    } else {
        ru as i64
    }
}

/// The modular inverse of `a` modulo `m`: exists exactly when the extended
/// algorithm finds a gcd of at most 1, and then satisfies
/// `(a * r) % m == 1` for a modulus greater than 1 and gcd exactly 1.
pub fn mod_inverse(a: i32, m: i32) -> (r: Result<i32, String>)
    requires
        m != 0,
        a != i32::MIN,
        m != i32::MIN,
    ensures
        egcd_spec(a as int, m as int).0 > 1 ==> (r matches Err(msg) && msg@
            == "Modular inverse does not exist"@),
        egcd_spec(a as int, m as int).0 <= 1 ==> (r matches Ok(v) && v == mod_inverse_val(
            a as int,
            m as int,
        )),
        egcd_spec(a as int, m as int).0 == 1 && m > 1 ==> (r matches Ok(v) && 0 <= v < m && (
        a as int * v) % (m as int) == 1),
{
    let t = egcd(a, m);
    let g = t.0;
    let x = t.1;
    if g > 1 {
        return Err(String::from_str("Modular inverse does not exist"));
    }
    proof {
        lemma_egcd_bounds(a as int, m as int);
        assert(mag(x as int) <= max(mag(m as int), 1));
    }
    let x64 = x as i64;
    let m64 = m as i64;
    let v1 = tmod64(x64, m64);
    proof {
        lemma_truncated_div_mod(x as int, m as int);
        assert(mag(v1 as int) < mag(m as int));
    }
    let v2 = tmod64(v1 + m64, m64);
    proof {
        lemma_truncated_div_mod(v1 as int + m as int, m as int);
        assert(mag(v2 as int) < mag(m as int));
        assert(v2 == mod_inverse_val(a as int, m as int));
        if egcd_spec(a as int, m as int).0 == 1 && m > 1 {
            lemma_mod_inverse_correct(a as int, m as int);
        }
    }
    Ok(v2 as i32)
}

/// When the extended algorithm reports gcd 1 and the modulus exceeds 1, the
/// reduced Bezout coefficient is a true inverse: multiplying by `a` leaves
/// remainder 1.
proof fn lemma_mod_inverse_correct(a: int, m: int)
    requires
        m > 1,
        egcd_spec(a, m).0 == 1,
    ensures
        0 <= mod_inverse_val(a, m) < m,
        (a * mod_inverse_val(a, m)) % m == 1,
{
    let x = egcd_spec(a, m).1;
    let y = egcd_spec(a, m).2;
    lemma_egcd_bezout(a, m);
    assert(1 == a * x + m * y);
    let v1 = tmod(x, m);
    let v2 = tmod(v1 + m, m);
    lemma_truncated_div_mod(x, m);
    let q1 = crate::gcd::tdiv(x, m);
    assert(x == m * q1 + v1);
    assert(mag(v1) < m);
    assert(v1 + m > 0);
    lemma_truncated_div_mod(v1 + m, m);
    let q2 = crate::gcd::tdiv(v1 + m, m);
    assert(v1 + m == m * q2 + v2);
    assert(0 <= v2 < m) by {
        assert(mag(v2) == mag(v1 + m) % mag(m));
        assert(v2 >= 0);
    }
    // v2 differs from x by a multiple of m.
    let k = 1 - q1 - q2;
    assert(v2 == x + m * k) by (nonlinear_arith)
        requires
            x == m * q1 + v1,
            v1 + m == m * q2 + v2,
            k == 1 - q1 - q2,
    ;
    // Multiplying by a keeps the difference a multiple of m.
    assert(a * v2 == m * (a * k) + a * x) by (nonlinear_arith)
        requires
            v2 == x + m * k,
    ;
    lemma_mod_multiples_vanish(a * k, a * x, m);
    assert((a * v2) % m == (a * x) % m);
    assert(a * x == m * (-y) + 1) by (nonlinear_arith)
        requires
            1 == a * x + m * y,
    ;
    lemma_mod_multiples_vanish(-y, 1, m);
    lemma_small_mod(1, m as nat);
    assert((a * x) % m == 1);
}

} // verus!
