//! A binary stream cipher built on a 288-bit non-linear feedback shift
//! register, organized as three segments of 93, 84 and 111 bits. One update
//! clocks the register once; after a warm-up of 1152 cycles each further
//! update also emits one keystream bit. Encryption and decryption are both
//! exclusive-or with the accumulated keystream.

use crate::bits::{all_bits, is_bit, xor_seq, zero_bits, Bits, BitsError};
use vstd::prelude::*;

verus! {

/// The keystream bit the register emits: the exclusive-or of the three
/// segment tap pairs.
pub open spec fn z_bit(s: Seq<u8>) -> u8 {
    ((s[65] ^ s[92]) ^ (s[161] ^ s[176])) ^ (s[242] ^ s[287])
}

/// The feedback bit fed into the first segment.
pub open spec fn feedback_a(s: Seq<u8>) -> u8 {
    ((s[65] ^ s[92]) ^ (s[90] & s[91])) ^ s[170]
}

/// The feedback bit fed into the second segment.
pub open spec fn feedback_b(s: Seq<u8>) -> u8 {
    ((s[161] ^ s[176]) ^ (s[174] & s[175])) ^ s[263]
}

/// The feedback bit fed into the third segment.
pub open spec fn feedback_c(s: Seq<u8>) -> u8 {
    ((s[242] ^ s[287]) ^ (s[285] & s[286])) ^ s[68]
}

/// One clock of the register: rotate right by one, then overwrite the three
/// segment-boundary bits with the feedback bits.
pub open spec fn next_state(s: Seq<u8>) -> Seq<u8> {
    (zero_bits(1) + s.take(287)).update(0, feedback_c(s)).update(93, feedback_a(s)).update(
        177,
        feedback_b(s),
    )
}

/// The register after `n` clocks.
pub open spec fn state_n(s: Seq<u8>, n: nat) -> Seq<u8>
    decreases n,
{
    if n == 0 {
        s
    } else {
        next_state(state_n(s, (n - 1) as nat))
    }
}

/// The keystream after `n` clocks from register `s`, clock count `c` and
/// keystream `ks`: each clock past the warm-up threshold prepends one bit,
/// because the keystream is kept least-significant-bit first.
pub open spec fn keystream_n(s: Seq<u8>, c: nat, n: nat, ks: Seq<u8>) -> Seq<u8>
    decreases n,
{
    if n == 0 {
        ks
    } else {
        let prev = keystream_n(s, c, (n - 1) as nat, ks);
        if c + n - 1 > 1151 {
            prev.insert(0, z_bit(state_n(s, (n - 1) as nat)))
        } else {
            prev
        }
    }
}

/// The 288-bit starting register: the 80-bit key at the head of the first
/// segment, the 80-bit initialization vector at the head of the second, and
/// the three highest bits of the third set to one.
pub open spec fn init_state(key: Seq<u8>, iv: Seq<u8>) -> Seq<u8> {
    key + zero_bits(13) + iv + zero_bits(4) + zero_bits(108) + seq![1u8, 1u8, 1u8]
}

/// Error cases of the stream cipher engine.
#[derive(Debug, PartialEq, Eq, Structural)]
pub enum TriviumError {
    /// A bit-buffer error raised while handling input bits.
    BitsError(BitsError),
    /// The key is not exactly 80 bits long; carries the length seen.
    InvalidKeyLength(usize),
    /// The initialization vector is not exactly 80 bits long; carries the
    /// length seen.
    InvalidIVLength(usize),
    /// Encryption or decryption was requested before 1152 warm-up cycles.
    NotWarmedUp,
}

/// The stream cipher engine: the 288-bit register, the accumulated
/// keystream, and the clock count.
#[derive(Debug)]
pub struct Trivium {
    pub state: Bits,
    pub key_stream: Bits,
    pub count: u16,
}

/// Exclusive-or and conjunction keep bit values bits.
proof fn lemma_bit_ops(x: u8, y: u8)
    by (bit_vector)
    requires
        x == 0 || x == 1,
        y == 0 || y == 1,
    ensures
        (x ^ y) == 0 || (x ^ y) == 1,
        (x & y) == 0 || (x & y) == 1,
{
}

impl Trivium {
    /// The register holds exactly 288 bit values, the keystream holds bit
    /// values, and the keystream never outgrows the clock count.
    pub open spec fn wf(&self) -> bool {
        &&& self.state@.len() == 288
        &&& all_bits(self.state@)
        &&& all_bits(self.key_stream@)
        &&& self.key_stream@.len() <= self.count
    }

    /// Builds an engine from an 80-bit key and an 80-bit initialization
    /// vector, both least-significant-bit-first bit sequences; reports the
    /// offending length otherwise.
    pub fn new(key: &[u8], iv: &[u8]) -> (r: Result<Trivium, TriviumError>)
        requires
            all_bits(key@),
            all_bits(iv@),
        ensures
            key@.len() != 80 ==> r == Err::<Trivium, TriviumError>(
                TriviumError::InvalidKeyLength(key@.len() as usize),
            ),
            key@.len() == 80 && iv@.len() != 80 ==> r == Err::<Trivium, TriviumError>(
                TriviumError::InvalidIVLength(iv@.len() as usize),
            ),
            key@.len() == 80 && iv@.len() == 80 ==> (r matches Ok(t) && t.state@ == init_state(
                key@,
                iv@,
            ) && t.key_stream@ == Seq::<u8>::empty() && t.count == 0 && t.wf()),
    {
        if key.len() != 80 {
            return Err(TriviumError::InvalidKeyLength(key.len()));
        }
        if iv.len() != 80 {
            return Err(TriviumError::InvalidIVLength(iv.len()));
        }
        let mut state: Vec<u8> = Vec::new();
        let mut i: usize = 0;
        while i < 80
            invariant
                i <= 80,
                key@.len() == 80,
                all_bits(key@),
                state@ == key@.take(i as int),
            decreases 80 - i,
        {
            proof {
                assert(key@.take(i as int).push(key@[i as int]) =~= key@.take(i + 1));
            }
            state.push(key[i]);
            i = i + 1;
        }
        proof {
            assert(key@.take(80) =~= key@);
        }
        push_zeros(&mut state, 13);
        let mut j: usize = 0;
        let ghost after_key = state@;
        while j < 80
            invariant
                j <= 80,
                iv@.len() == 80,
                all_bits(iv@),
                after_key == key@ + zero_bits(13),
                state@ == after_key + iv@.take(j as int),
            decreases 80 - j,
        {
            proof {
                assert(iv@.take(j as int).push(iv@[j as int]) =~= iv@.take(j + 1));
                assert(after_key + iv@.take(j as int).push(iv@[j as int]) =~= (after_key
                    + iv@.take(j as int)).push(iv@[j as int]));
            }
            state.push(iv[j]);
            j = j + 1;
        }
        proof {
            assert(iv@.take(80) =~= iv@);
        }
        push_zeros(&mut state, 4);
        push_zeros(&mut state, 108);
        state.push(1);
        state.push(1);
        state.push(1);
        proof {
            assert(state@ =~= init_state(key@, iv@));
            assert forall|k: int| 0 <= k < state@.len() implies is_bit(#[trigger] state@[k]) by {
                assert(state@[k] == init_state(key@, iv@)[k]);
            }
        }
        let state_bits = Bits::from_vec(state);
        let key_stream = Bits::from_vec(Vec::new());
        Ok(Trivium { state: state_bits, key_stream, count: 0 })
    }

    /// One clock of the engine: computes the three tap pairs, emits a
    /// keystream bit when the given count is past the warm-up threshold,
    /// extends the taps with the nonlinear terms into feedback bits, rotates
    /// the register and feeds them back at the segment boundaries.
    pub fn update_state(&mut self, count: u16)
        requires
            old(self).wf(),
            old(self).count < u16::MAX,
        ensures
            final(self).state@ == next_state(old(self).state@),
            final(self).key_stream@ == if count > 1151 {
                old(self).key_stream@.insert(0, z_bit(old(self).state@))
            } else {
                old(self).key_stream@
            },
            final(self).count == old(self).count + 1,
            final(self).wf(),
    {
        let ghost s = self.state@;
        let mut t1 = self.state.get_bit(65) ^ self.state.get_bit(92);
        let mut t2 = self.state.get_bit(161) ^ self.state.get_bit(176);
        let mut t3 = self.state.get_bit(242) ^ self.state.get_bit(287);
        proof {
            lemma_bit_ops(s[65], s[92]);
            lemma_bit_ops(s[161], s[176]);
            lemma_bit_ops(s[242], s[287]);
        }
        if count > 1151 {
            let z = t1 ^ t2 ^ t3;
            proof {
                lemma_bit_ops(t1, t2);
                lemma_bit_ops(t1 ^ t2, t3);
            }
            self.key_stream.insert(0, z);
        }
        let a1 = self.state.get_bit(90) & self.state.get_bit(91);
        let a2 = self.state.get_bit(174) & self.state.get_bit(175);
        let a3 = self.state.get_bit(285) & self.state.get_bit(286);
        proof {
            lemma_bit_ops(s[90], s[91]);
            lemma_bit_ops(s[174], s[175]);
            lemma_bit_ops(s[285], s[286]);
            lemma_bit_ops(t1, a1);
            lemma_bit_ops(t2, a2);
            lemma_bit_ops(t3, a3);
            lemma_bit_ops(t1 ^ a1, s[170]);
            lemma_bit_ops(t2 ^ a2, s[263]);
            lemma_bit_ops(t3 ^ a3, s[68]);
        }
        t1 = t1 ^ a1 ^ self.state.get_bit(170);
        t2 = t2 ^ a2 ^ self.state.get_bit(263);
        t3 = t3 ^ a3 ^ self.state.get_bit(68);
        self.state.shift_right(1);
        self.state.update_bit(0, t3);
        self.state.update_bit(93, t1);
        self.state.update_bit(177, t2);
        self.count = self.count + 1;
        proof {
            assert(self.state@ =~= next_state(s));
        }
    }

    /// Clocks the engine exactly 1152 times; the warm-up threshold
    /// guarantees that a run started from a fresh engine emits nothing.
    pub fn warm_up(&mut self)
        requires
            old(self).wf(),
            old(self).count + 1152 <= u16::MAX,
        ensures
            final(self).state@ == state_n(old(self).state@, 1152),
            final(self).key_stream@ == keystream_n(
                old(self).state@,
                old(self).count as nat,
                1152,
                old(self).key_stream@,
            ),
            final(self).count == old(self).count + 1152,
            old(self).count == 0 ==> final(self).key_stream@ == old(self).key_stream@,
            final(self).wf(),
    {
        let mut i: usize = 0;
        while i < 1152
            invariant
                i <= 1152,
                old(self).wf(),
                old(self).count + 1152 <= u16::MAX,
                self.state@ == state_n(old(self).state@, i as nat),
                self.key_stream@ == keystream_n(
                    old(self).state@,
                    old(self).count as nat,
                    i as nat,
                    old(self).key_stream@,
                ),
                self.count == old(self).count + i,
                old(self).count == 0 ==> self.key_stream@ == old(self).key_stream@,
                self.wf(),
            decreases 1152 - i,
        {
            let c = self.count;
            self.update_state(c);
            i = i + 1;
        }
    }

    /// Clocks the engine once per plaintext bit, accumulating one keystream
    /// bit per clock once past the warm-up threshold.
    pub fn build_key_stream(&mut self, plain_text_length: usize)
        requires
            old(self).wf(),
            old(self).count + plain_text_length <= u16::MAX,
        ensures
            final(self).state@ == state_n(old(self).state@, plain_text_length as nat),
            final(self).key_stream@ == keystream_n(
                old(self).state@,
                old(self).count as nat,
                plain_text_length as nat,
                old(self).key_stream@,
            ),
            final(self).count == old(self).count + plain_text_length,
            old(self).count >= 1152 ==> final(self).key_stream@.len() == old(
                self,
            ).key_stream@.len() + plain_text_length,
            final(self).wf(),
    {
        let n = plain_text_length;
        let mut i: usize = 0;
        while i < n
            invariant
                i <= n,
                old(self).wf(),
                old(self).count + n <= u16::MAX,
                self.state@ == state_n(old(self).state@, i as nat),
                self.key_stream@ == keystream_n(
                    old(self).state@,
                    old(self).count as nat,
                    i as nat,
                    old(self).key_stream@,
                ),
                self.count == old(self).count + i,
                old(self).count >= 1152 ==> self.key_stream@.len() == old(
                    self,
                ).key_stream@.len() + i,
                self.wf(),
            decreases n - i,
        {
            let c = self.count;
            self.update_state(c);
            i = i + 1;
        }
    }

    /// Masks plaintext bits with the accumulated keystream. Fails before
    /// warm-up whatever the input holds; past warm-up it fails on a
    /// non-bit input byte or a length that differs from the keystream's.
    pub fn encrypt(&mut self, plain_text: &[u8]) -> (r: Result<Vec<u8>, TriviumError>)
        ensures
            *final(self) == *old(self),
            old(self).count < 1152 ==> r == Err::<Vec<u8>, TriviumError>(
                TriviumError::NotWarmedUp,
            ),
            old(self).count >= 1152 && all_bits(plain_text@) && plain_text@.len() == old(
                self,
            ).key_stream@.len() ==> (r matches Ok(v) && v@ == xor_seq(
                plain_text@,
                old(self).key_stream@,
            )),
            old(self).count >= 1152 && all_bits(plain_text@) && plain_text@.len() != old(
                self,
            ).key_stream@.len() ==> r == Err::<Vec<u8>, TriviumError>(
                TriviumError::BitsError(BitsError::LengthMismatch),
            ),
            old(self).count >= 1152 && !all_bits(plain_text@) ==> (r matches Err(e) && (exists|i: int|
                0 <= i < plain_text@.len() && e == TriviumError::BitsError(
                    BitsError::InvalidBit(#[trigger] plain_text@[i]),
                ) && !is_bit(plain_text@[i]) && (forall|j: int|
                    0 <= j < i ==> is_bit(#[trigger] plain_text@[j])))),
    {
        if self.count < 1152 {
            return Err(TriviumError::NotWarmedUp);
        }
        let plain_text_bits = match Bits::new(plain_text) {
            Ok(b) => b,
            Err(e) => {
                return Err(TriviumError::BitsError(e));
            },
        };
        match plain_text_bits.xor(&self.key_stream) {
            Ok(v) => Ok(v),
            Err(e) => Err(TriviumError::BitsError(e)),
        }
    }

    /// Unmasks ciphertext bits with the accumulated keystream: the same
    /// exclusive-or as encryption, with the same failure cases.
    pub fn decrypt(&mut self, cipher_text: &[u8]) -> (r: Result<Vec<u8>, TriviumError>)
        ensures
            *final(self) == *old(self),
            old(self).count < 1152 ==> r == Err::<Vec<u8>, TriviumError>(
                TriviumError::NotWarmedUp,
            ),
            old(self).count >= 1152 && all_bits(cipher_text@) && cipher_text@.len() == old(
                self,
            ).key_stream@.len() ==> (r matches Ok(v) && v@ == xor_seq(
                cipher_text@,
                old(self).key_stream@,
            )),
            old(self).count >= 1152 && all_bits(cipher_text@) && cipher_text@.len() != old(
                self,
            ).key_stream@.len() ==> r == Err::<Vec<u8>, TriviumError>(
                TriviumError::BitsError(BitsError::LengthMismatch),
            ),
            old(self).count >= 1152 && !all_bits(cipher_text@) ==> (r matches Err(e) && (exists|i: int|
                0 <= i < cipher_text@.len() && e == TriviumError::BitsError(
                    BitsError::InvalidBit(#[trigger] cipher_text@[i]),
                ) && !is_bit(cipher_text@[i]) && (forall|j: int|
                    0 <= j < i ==> is_bit(#[trigger] cipher_text@[j])))),
    {
        if self.count < 1152 {
            return Err(TriviumError::NotWarmedUp);
        }
        let cipher_text_bits = match Bits::new(cipher_text) {
            Ok(b) => b,
            Err(e) => {
                return Err(TriviumError::BitsError(e));
            },
        };
        match cipher_text_bits.xor(&self.key_stream) {
            Ok(v) => Ok(v),
            Err(e) => Err(TriviumError::BitsError(e)),
        }
    }
}

/// Appends `n` zero bits.
fn push_zeros(v: &mut Vec<u8>, n: usize)
    ensures
        final(v)@ == old(v)@ + zero_bits(n as nat),
{
    let mut i: usize = 0;
    while i < n
        invariant
            i <= n,
            v@ == old(v)@ + zero_bits(i as nat),
        decreases n - i,
    {
        proof {
            assert((old(v)@ + zero_bits(i as nat)).push(0u8) =~= old(v)@ + zero_bits(
                (i + 1) as nat,
            ));
        }
        v.push(0);
        i = i + 1;
    }
}

/// Stream cipher round trip: masking a message with the keystream and
/// masking the outcome with the same keystream gives back the message.
/// Together with the engine's contracts this says that decrypting an
/// encrypted message recovers it, and that the ciphertext is exactly the
/// keystream exclusive-or the message.
pub proof fn lemma_stream_round_trip(m: Seq<u8>, ks: Seq<u8>)
    requires
        m.len() == ks.len(),
    ensures
        xor_seq(m, ks).len() == m.len(),
        xor_seq(xor_seq(m, ks), ks) == m,
{
    assert forall|i: int| 0 <= i < m.len() implies xor_seq(xor_seq(m, ks), ks)[i] == m[i] by {
        let x = m[i];
        let y = ks[i];
        assert((x ^ y) ^ y == x) by (bit_vector);
    }
    assert(xor_seq(xor_seq(m, ks), ks) =~= m);
}

} // verus!
