//! Euclidean greatest common divisor, in recursive and iterative form, and
//! the extended algorithm that also returns Bezout coefficients. The
//! executable functions use machine division, whose truncated remainder is
//! related here to the Euclidean one.

use vstd::arithmetic::div_mod::lemma_fundamental_div_mod;
use vstd::arithmetic::mul::lemma_mul_inequality;
use vstd::math::max;
use vstd::prelude::*;

verus! {

/// The magnitude of an integer.
pub open spec fn mag(a: int) -> int {
    if a >= 0 {
        a
    } else {
        -a
    }
}

/// The greatest common divisor of two natural numbers by Euclid's
/// recursion.
pub open spec fn gcd_nat(a: nat, b: nat) -> nat
    decreases b,
{
    if b == 0 {
        a
    } else {
        gcd_nat(b, a % b)
    }
}

/// Truncated division, as machine division computes it: the quotient of the
/// magnitudes, negated when the signs differ.
pub open spec fn tdiv(a: int, b: int) -> int {
    if (a >= 0) == (b >= 0) {
        mag(a) / mag(b)
    } else {
        -(mag(a) / mag(b))
    }
}

/// Truncated remainder, as machine remainder computes it: the remainder of
/// the magnitudes, carrying the sign of the dividend.
pub open spec fn tmod(a: int, b: int) -> int {
    if a >= 0 {
        mag(a) % mag(b)
    } else {
        -(mag(a) % mag(b))
    }
}

/// Truncated division and remainder reassemble the dividend, and their
/// magnitudes are the quotient and remainder of the magnitudes.
pub proof fn lemma_truncated_div_mod(a: int, b: int)
    requires
        b != 0,
    ensures
        a == b * tdiv(a, b) + tmod(a, b),
        mag(tmod(a, b)) == mag(a) % mag(b),
        mag(tmod(a, b)) < mag(b),
        mag(tdiv(a, b)) == mag(a) / mag(b),
{
    let am = mag(a);
    let bm = mag(b);
    lemma_fundamental_div_mod(am, bm);
    let q = am / bm;
    let r = am % bm;
    assert(am == bm * q + r);
    assert(0 <= r < bm);
    assert(q >= 0);
    if a >= 0 && b > 0 {
        assert(b * tdiv(a, b) + tmod(a, b) == a);
    } else if a >= 0 && b < 0 {
        assert(b * tdiv(a, b) == (-bm) * (-q));
        assert((-bm) * (-q) == bm * q) by (nonlinear_arith);
    } else if a < 0 && b > 0 {
        assert(b * tdiv(a, b) == bm * (-q));
        assert(bm * (-q) == -(bm * q)) by (nonlinear_arith);
    } else {
        assert(b * tdiv(a, b) == (-bm) * q);
        assert((-bm) * q == -(bm * q)) by (nonlinear_arith);
    }
}

/// The extended Euclidean triple: the signed gcd the recursion reaches, and
/// the coefficients x and y with gcd == a*x + b*y.
pub open spec fn egcd_spec(a: int, b: int) -> (int, int, int)
    decreases mag(b),
{
    if b == 0 {
        (a, 1, 0)
    } else {
        let q = tdiv(a, b);
        let sub = egcd_spec(b, tmod(a, b));
        (sub.0, sub.2, sub.1 - q * sub.2)
    }
}

/// Bezout's identity: the triple satisfies gcd == a*x + b*y.
pub proof fn lemma_egcd_bezout(a: int, b: int)
    ensures
        egcd_spec(a, b).0 == a * egcd_spec(a, b).1 + b * egcd_spec(a, b).2,
    decreases mag(b),
{
    if b == 0 {
        assert(a == a * 1 + b * 0) by (nonlinear_arith);
    } else {
        let q = tdiv(a, b);
        let r = tmod(a, b);
        lemma_truncated_div_mod(a, b);
        lemma_egcd_bezout(b, r);
        let sub = egcd_spec(b, r);
        let g = sub.0;
        let x = sub.1;
        let y = sub.2;
        assert(g == b * x + r * y);
        assert(a * y + b * (x - q * y) == b * x + (a - b * q) * y) by (nonlinear_arith);
        assert(a - b * q == r);
    }
}

/// The coefficients stay within the inputs: the magnitude of x is at most
/// that of b, the magnitude of y at most that of a, each at least 1, and
/// the signed gcd within the larger input.
pub proof fn lemma_egcd_bounds(a: int, b: int)
    ensures
        mag(egcd_spec(a, b).1) <= max(mag(b), 1),
        mag(egcd_spec(a, b).2) <= max(mag(a), 1),
        mag(egcd_spec(a, b).0) <= max(mag(a), mag(b)),
    decreases mag(b),
{
    if b == 0 {
    } else {
        let q = tdiv(a, b);
        let r = tmod(a, b);
        lemma_truncated_div_mod(a, b);
        lemma_egcd_bounds(b, r);
        let sub = egcd_spec(b, r);
        let x = sub.1;
        let y = sub.2;
        if r == 0 {
            assert(egcd_spec(b, 0) == (b, 1int, 0int));
            assert(x - q * y == 1 - q * 0);
            assert(q * 0 == 0) by (nonlinear_arith);
        } else {
            assert(mag(x) <= mag(r));
            assert(mag(y) <= mag(b));
            assert(mag(q * y) == mag(q) * mag(y)) by (nonlinear_arith);
            lemma_mul_inequality(mag(y), mag(b), mag(q));
            assert(mag(q) * mag(y) == mag(y) * mag(q)) by (nonlinear_arith);
            assert(mag(b) * mag(q) == mag(q) * mag(b)) by (nonlinear_arith);
            assert(mag(q) * mag(b) == mag(a) - mag(r)) by {
                lemma_fundamental_div_mod(mag(a), mag(b));
                assert(mag(q) == mag(a) / mag(b));
                assert(mag(b) * (mag(a) / mag(b)) == mag(a) - mag(a) % mag(b));
                assert(mag(b) * (mag(a) / mag(b)) == (mag(a) / mag(b)) * mag(b)) by (nonlinear_arith);
            }
            assert(mag(q * y) <= mag(a) - mag(r));
            assert(mag(x - q * y) <= mag(x) + mag(q * y));
        }
    }
}

/// Truncated remainder and quotient of two machine integers, computed on
/// the magnitudes so that the relation to the mathematical model is direct.
fn trunc_div_mod(a: i32, b: i32) -> (r: (i32, i32))
    requires
        a != i32::MIN,
        b != i32::MIN,
        b != 0,
    ensures
        r.0 == tdiv(a as int, b as int),
        r.1 == tmod(a as int, b as int),
{
    let am: u32 = if a < 0 {
        (-a) as u32
    } else {
        a as u32
    };
    let bm: u32 = if b < 0 {
        (-b) as u32
    } else {
        b as u32
    };
    let qu = am / bm;
    let mu = am % bm;
    let q: i32 = if (a < 0) != (b < 0) {
        -(qu as i32)
    } else {
        qu as i32
    };
    let m: i32 = if a < 0 {
        -(mu as i32)
    } else {
        mu as i32
    };
    proof {
        assert(am == mag(a as int) && bm == mag(b as int));
        assert(qu == mag(a as int) / mag(b as int));
        assert(mu == mag(a as int) % mag(b as int));
    }
    (q, m)
}

/// Recursive Euclidean algorithm: the divisor becomes the next dividend and
/// the remainder the next divisor, until the remainder is 0. For a nonzero
/// second argument the result is the (nonnegative) gcd of the magnitudes;
/// for a zero second argument the first argument comes back as it is.
pub fn gcd(a: i32, b: i32) -> (r: i32)
    requires
        a != i32::MIN,
        b != i32::MIN,
    ensures
        b == 0 ==> r == a,
        b != 0 ==> r == gcd_nat(mag(a as int) as nat, mag(b as int) as nat),
    decreases mag(b as int),
{
    if b == 0 {
        return a;
    }
    let m = trunc_div_mod(a, b).1;
    proof {
        lemma_truncated_div_mod(a as int, b as int);
    }
    let g = gcd(b, m);
    let r = if g < 0 {
        -g
    } else {
        g
    };
    proof {
        let am = mag(a as int) as nat;
        let bm = mag(b as int) as nat;
        assert(am % bm == mag(m as int));
        assert(gcd_nat(am, bm) == gcd_nat(bm, mag(m as int) as nat));
        if m == 0 {
            assert(gcd_nat(bm, 0) == bm);
        }
    }
    r
}

/// Iterative Euclidean algorithm; always returns the nonnegative gcd of the
/// magnitudes.
pub fn gcdi(a: i32, b: i32) -> (r: i32)
    requires
        a != i32::MIN,
        b != i32::MIN,
    ensures
        r == gcd_nat(mag(a as int) as nat, mag(b as int) as nat),
{
    let mut x = a;
    let mut y = b;
    while y != 0
        invariant
            x != i32::MIN,
            y != i32::MIN,
            gcd_nat(mag(x as int) as nat, mag(y as int) as nat) == gcd_nat(
                mag(a as int) as nat,
                mag(b as int) as nat,
            ),
        decreases mag(y as int),
    {
        let carry = y;
        proof {
            lemma_truncated_div_mod(x as int, y as int);
        }
        y = trunc_div_mod(x, y).1;
        x = carry;
    }
    if x < 0 {
        -x
    } else {
        x
    }
}

/// Recursive extended Euclidean algorithm: returns the signed gcd the
/// recursion reaches together with Bezout coefficients x and y such that
/// gcd == a*x + b*y.
pub fn egcd(a: i32, b: i32) -> (r: (i32, i32, i32))
    requires
        a != i32::MIN,
        b != i32::MIN,
    ensures
        r.0 == egcd_spec(a as int, b as int).0,
        r.1 == egcd_spec(a as int, b as int).1,
        r.2 == egcd_spec(a as int, b as int).2,
    decreases mag(b as int),
{
    if b == 0 {
        return (a, 1, 0);
    }
    let qm = trunc_div_mod(a, b);
    let q = qm.0;
    let m = qm.1;
    proof {
        lemma_truncated_div_mod(a as int, b as int);
    }
    let sub = egcd(b, m);
    let g = sub.0;
    let x = sub.1;
    let y = sub.2;
    proof {
        lemma_egcd_bounds(b as int, m as int);
        lemma_egcd_bounds(a as int, b as int);
        if m != 0 {
            assert(mag(q as int * y as int) == mag(q as int) * mag(y as int)) by (nonlinear_arith);
            lemma_mul_inequality(mag(y as int), mag(b as int), mag(q as int));
            assert(mag(q as int) * mag(y as int) == mag(y as int) * mag(q as int))
                by (nonlinear_arith);
            assert(mag(b as int) * mag(q as int) == mag(q as int) * mag(b as int))
                by (nonlinear_arith);
            assert(mag(q as int) * mag(b as int) <= mag(a as int)) by {
                lemma_fundamental_div_mod(mag(a as int), mag(b as int));
                assert(mag(b as int) * (mag(a as int) / mag(b as int)) == (mag(a as int) / mag(
                    b as int,
                )) * mag(b as int)) by (nonlinear_arith);
            }
        } else {
            assert(egcd_spec(b as int, 0) == (b as int, 1int, 0int));
            assert(y == 0);
            assert(q as int * y as int == 0) by (nonlinear_arith)
                requires
                    y as int == 0,
            ;
        }
    }
    let y_p = x - q * y;
    (g, y, y_p)
}

/// Iterative entry point of the extended Euclidean algorithm; returns the
/// same triple as `egcd`.
pub fn egcdi(a: i32, b: i32) -> (r: (i32, i32, i32))
    requires
        a != i32::MIN,
        b != i32::MIN,
    ensures
        r.0 == egcd_spec(a as int, b as int).0,
        r.1 == egcd_spec(a as int, b as int).1,
        r.2 == egcd_spec(a as int, b as int).2,
{
    egcd(a, b)
}

} // verus!
