//! A linear congruential generator: each step multiplies the state by `a`,
//! adds `b` with 64-bit wrapping arithmetic, and reduces by the modulus
//! `m`.

use vstd::arithmetic::div_mod::{lemma_add_mod_noop, lemma_small_mod};
use vstd::prelude::*;

verus! {

/// The next state of the generator: `(x * a + b) mod 2^64 mod m`.
pub open spec fn lcg_next_val(x: u64, a: u64, b: u64, m: u64) -> u64 {
    ((((x * a) + b) % 0x1_0000_0000_0000_0000) % (m as int)) as u64
}

/// A linear congruential generator over 64-bit words.
pub struct LCG {
    pub m: u64,
    pub a: u64,
    pub b: u64,
    pub x: u64,
}

impl LCG {
    /// A generator with the given seed, modulus, multiplier and increment.
    pub fn new(seed: u64, m: u64, a: u64, b: u64) -> (r: LCG)
        ensures
            r.m == m,
            r.a == a,
            r.b == b,
            r.x == seed,
    {
        LCG { m, a, b, x: seed }
    }

    /// Advances the state once and returns it.
    pub fn next(&mut self) -> (r: u64)
        requires
            old(self).m != 0,
        ensures
            final(self).x == lcg_next_val(old(self).x, old(self).a, old(self).b, old(self).m),
            r == final(self).x,
            final(self).m == old(self).m,
            final(self).a == old(self).a,
            final(self).b == old(self).b,
    {
        let w1 = self.x.wrapping_mul(self.a);
        let w2 = w1.wrapping_add(self.b);
        proof {
            let range = 0x1_0000_0000_0000_0000int;
            let p = old(self).x * old(self).a;
            let b = old(self).b as int;
            assert(w1 == p % range);
            lemma_small_mod(b as nat, range as nat);
            lemma_add_mod_noop(p, b, range);
            assert((p % range + b % range) % range == (p + b) % range);
            if w1 + b > u64::MAX {
                assert((p % range + b) % range == p % range + b - range) by {
                    vstd::arithmetic::div_mod::lemma_mod_sub_multiples_vanish(
                        p % range + b,
                        range,
                    );
                    lemma_small_mod((p % range + b - range) as nat, range as nat);
                }
            } else {
                lemma_small_mod((p % range + b) as nat, range as nat);
            }
            assert(w2 == (p + b) % range);
        }
        self.x = w2 % self.m;
        self.x
    }
}

} // verus!
