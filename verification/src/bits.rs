//! An ordered buffer of single-bit values, each stored as a `u8` that is 0 or
//! 1. It supports bit access and update, insertion, append, an append-extend
//! left shift, a rotating right shift, chunk-wise reversal, packing into
//! bytes, and length-checked exclusive-or. Both cipher engines are built on
//! this buffer.

use vstd::arithmetic::div_mod::{
    lemma_fundamental_div_mod, lemma_fundamental_div_mod_converse_div,
};
use crate::utils::push_char;
use vstd::prelude::*;

verus! {

/// A byte holds a bit value: it is exactly 0 or 1.
pub open spec fn is_bit(b: u8) -> bool {
    b == 0 || b == 1
}

/// Every element of the sequence is a bit value.
pub open spec fn all_bits(s: Seq<u8>) -> bool {
    forall|i: int| 0 <= i < s.len() ==> is_bit(#[trigger] s[i])
}

/// The all-zero sequence of length `n`.
pub open spec fn zero_bits(n: nat) -> Seq<u8> {
    Seq::new(n, |i: int| 0u8)
}

/// Element-wise exclusive-or of two sequences of equal length.
pub open spec fn xor_seq(a: Seq<u8>, b: Seq<u8>) -> Seq<u8> {
    Seq::new(a.len(), |i: int| a[i] ^ b[i])
}

/// The value of a run of at most 8 bits read most-significant-bit first:
/// each step doubles the accumulator and adds the low bit of the next
/// element.
pub open spec fn pack_chunk(s: Seq<u8>) -> int
    decreases s.len(),
{
    if s.len() == 0 {
        0
    } else {
        pack_chunk(s.drop_last()) * 2 + (s.last() & 1)
    }
}

/// The number of bytes that packing a bit sequence of length `n` yields:
/// one byte per 8 bits, with a trailing partial group still producing a byte.
pub open spec fn packed_len(n: nat) -> nat {
    (n + 7) / 8
}

/// The `k`-th 8-bit group of `s`; the last group may be shorter than 8.
pub open spec fn chunk_of(s: Seq<u8>, k: int) -> Seq<u8> {
    s.subrange(8 * k, if 8 * k + 8 <= s.len() { 8 * k + 8 } else { s.len() as int })
}

/// The bytes that packing `s` yields: each 8-bit group read MSB-first.
pub open spec fn pack_bytes(s: Seq<u8>) -> Seq<u8> {
    Seq::new(packed_len(s.len()), |k: int| pack_chunk(chunk_of(s, k)) as u8)
}

/// `s` with the order of its 8-bit groups reversed; the bits inside each
/// group keep their order, and a trailing partial group moves to the front.
pub open spec fn chunk_swap(s: Seq<u8>) -> Seq<u8>
    decreases s.len(),
{
    if s.len() <= 8 {
        s
    } else {
        chunk_swap(s.skip(8)) + s.take(8)
    }
}

/// The digit characters of a bit sequence, one per bit.
pub open spec fn bit_chars(s: Seq<u8>) -> Seq<char> {
    Seq::new(s.len(), |i: int| ((48 + s[i]) as u8) as char)
}

/// The digit characters of the bits from position `i` on, with a space
/// after every eighth bit except at the very end.
pub open spec fn grouped_bit_chars(s: Seq<u8>, i: int) -> Seq<char>
    decreases s.len() - i,
{
    if i < 0 || i >= s.len() {
        Seq::empty()
    } else {
        let ch = ((48 + s[i]) as u8) as char;
        let rest = grouped_bit_chars(s, i + 1);
        if (i + 1) % 8 == 0 && i < s.len() - 1 {
            seq![ch, ' '] + rest
        } else {
            seq![ch] + rest
        }
    }
}

/// Error cases of the bit buffer.
#[derive(Debug, PartialEq, Eq, Structural)]
pub enum BitsError {
    /// A buffer was constructed from a byte that is neither 0 nor 1.
    InvalidBit(u8),
    /// Exclusive-or was attempted between buffers of unequal length.
    LengthMismatch,
}

/// An owned, mutable, index-addressable sequence of bit values.
#[derive(Debug)]
pub struct Bits {
    bits: Vec<u8>,
}

impl View for Bits {
    type V = Seq<u8>;

    closed spec fn view(&self) -> Seq<u8> {
        self.bits@
    }
}

impl Bits {
    /// Every stored element is 0 or 1.
    pub open spec fn wf(&self) -> bool {
        all_bits(self@)
    }

    /// Borrowing constructor: copies the given bytes after checking that each
    /// one is a bit value; reports the first offender otherwise.
    pub fn new(data: &[u8]) -> (r: Result<Bits, BitsError>)
        ensures
            r is Ok <==> all_bits(data@),
            r matches Ok(b) ==> b@ == data@ && b.wf(),
            r matches Err(e) ==> exists|i: int|
                0 <= i < data@.len() && e == BitsError::InvalidBit(#[trigger] data@[i]) && !is_bit(
                    data@[i],
                ) && (forall|j: int| 0 <= j < i ==> is_bit(#[trigger] data@[j])),
    {
        let n = data.len();
        let mut i: usize = 0;
        while i < n
            invariant
                n == data@.len(),
                i <= n,
                forall|j: int| 0 <= j < i ==> is_bit(#[trigger] data@[j]),
            decreases n - i,
        {
            let b = data[i];
            if b != 0 && b != 1 {
                assert(data@[i as int] == b && !is_bit(b));
                return Err(BitsError::InvalidBit(b));
            }
            i = i + 1;
        }
        Ok(Bits { bits: vstd::slice::slice_to_vec(data) })
    }

    /// Owning constructor: wraps a vector already known to hold bit values.
    pub fn from_vec(data: Vec<u8>) -> (r: Bits)
        requires
            all_bits(data@),
        ensures
            r@ == data@,
            r.wf(),
    {
        Bits { bits: data }
    }

    /// The bits of a hexadecimal value, each byte expanded most significant
    /// bit first.
    pub fn from_hex(hex: &crate::hex::Hex) -> (r: Bits)
        ensures
            r@ == crate::hex::bits_of_bytes(hex@),
            r.wf(),
    {
        Bits::from_vec(hex.to_bits_msb())
    }

    /// The underlying bit values, one byte per bit.
    pub fn as_slice(&self) -> (r: &[u8])
        ensures
            r@ == self@,
    {
        self.bits.as_slice()
    }

    /// The number of bits held.
    pub fn len(&self) -> (r: usize)
        ensures
            r == self@.len(),
    {
        self.bits.len()
    }

    /// Packs every 8 consecutive bits, most significant first, into a byte;
    /// a trailing group of fewer than 8 bits packs just those bits.
    pub fn as_vec_bytes(&self) -> (r: Vec<u8>)
        ensures
            r@ == pack_bytes(self@),
    {
        let ghost s = self@;
        let n = self.bits.len();
        let mut out: Vec<u8> = Vec::new();
        let mut i: usize = 0;
        while i < n
            invariant
                s == self@,
                n == s.len(),
                i <= n,
                i % 8 == 0 || i == n,
                out@.len() == packed_len(i as nat),
                forall|k: int| 0 <= k < out@.len() ==> out@[k] == pack_chunk(chunk_of(s, k)) as u8,
            decreases n - i,
        {
            assert(i % 8 == 0);
            let end = if n - i >= 8 {
                i + 8
            } else {
                n
            };
            let ghost q = i as int / 8;
            proof {
                lemma_fundamental_div_mod(i as int, 8);
                assert(8 * q == i);
                lemma_fundamental_div_mod_converse_div(i + 7, 8, q, 7);
                assert(out@.len() == q);
            }
            let mut byte: u8 = 0;
            let mut j: usize = i;
            while j < end
                invariant
                    s == self@,
                    n == s.len(),
                    i <= j <= end <= n,
                    end - i <= 8,
                    byte == pack_chunk(s.subrange(i as int, j as int)),
                    byte < pow2_small((j - i) as nat),
                decreases end - j,
            {
                proof {
                    let ghost bj = s[j as int];
                    assert(bj & 1 <= 1) by (bit_vector);
                    lemma_pow2_small_values();
                    lemma_pow2_small_mono(((j - i) + 1) as nat, 8);
                    assert(pow2_small(((j - i) + 1) as nat) == 2 * pow2_small((j - i) as nat));
                    assert(s.subrange(i as int, j + 1).drop_last() == s.subrange(
                        i as int,
                        j as int,
                    ));
                    assert(s.subrange(i as int, j + 1).last() == s[j as int]);
                }
                byte = byte * 2 + (self.bits[j] & 1);
                j = j + 1;
            }
            proof {
                assert(s.subrange(i as int, end as int) == chunk_of(s, q));
            }
            out.push(byte);
            proof {
                if n - i >= 8 {
                    lemma_fundamental_div_mod_converse_div(i + 8 + 7, 8, q + 1, 7);
                } else {
                    let t = n - i;
                    assert(n + 7 == (q + 1) * 8 + (t - 1));
                    lemma_fundamental_div_mod_converse_div(n as int + 7, 8, q + 1, t - 1);
                }
                assert(out@.len() == packed_len(end as nat));
            }
            i = end;
        }
        proof {
            assert(out@ =~= pack_bytes(s));
        }
        out
    }

    /// Reverses the order of the 8-bit groups in place; a trailing partial
    /// group moves to the front, and bits inside each group keep their order.
    pub fn reverse_mut(&mut self)
        ensures
            final(self)@ == chunk_swap(old(self)@),
            old(self).wf() ==> final(self).wf(),
    {
        let ghost s = self@;
        let rev = chunk_swapped(self.bits.as_slice());
        self.bits = rev;
        proof {
            if old(self).wf() {
                lemma_chunk_swap_bits(s);
            }
        }
    }

    /// A byte-group-reversed copy of the bits: the 8-bit groups come back in
    /// reversed order, a trailing partial group first, with the bits inside
    /// each group keeping their order -- the same semantics as
    /// `reverse_mut`.
    pub fn reverse(&self) -> (r: Vec<u8>)
        ensures
            r@ == chunk_swap(self@),
    {
        chunk_swapped(self.bits.as_slice())
    }

    /// The bit at `index`.
    pub fn get_bit(&self, index: usize) -> (r: u8)
        requires
            index < self@.len(),
        ensures
            r == self@[index as int],
    {
        self.bits[index]
    }

    /// Overwrites the bit at `index`.
    pub fn update_bit(&mut self, index: usize, bit: u8)
        requires
            index < old(self)@.len(),
            is_bit(bit),
        ensures
            final(self)@ == old(self)@.update(index as int, bit),
            old(self).wf() ==> final(self).wf(),
    {
        self.bits[index] = bit;
    }

    /// Inserts a bit at `index`, growing the buffer by one.
    pub fn insert(&mut self, index: usize, bit: u8)
        requires
            index <= old(self)@.len(),
            is_bit(bit),
            old(self)@.len() < usize::MAX,
        ensures
            final(self)@ == old(self)@.insert(index as int, bit),
            old(self).wf() ==> final(self).wf(),
    {
        self.bits.insert(index, bit);
    }

    /// Appends a bit at the end.
    pub fn push(&mut self, bit: u8)
        requires
            is_bit(bit),
            old(self)@.len() < usize::MAX,
        ensures
            final(self)@ == old(self)@.push(bit),
            old(self).wf() ==> final(self).wf(),
    {
        self.bits.push(bit);
    }

    /// Appends `n` zero bits at the tail; the length grows by `n`. This is an
    /// append-extend, not a rotate, mirroring the asymmetry with
    /// `shift_right`.
    pub fn shift_left(&mut self, n: usize)
        requires
            old(self)@.len() + n <= usize::MAX,
        ensures
            final(self)@ == old(self)@ + zero_bits(n as nat),
            old(self).wf() ==> final(self).wf(),
    {
        let mut i: usize = 0;
        while i < n
            invariant
                i <= n,
                self@ == old(self)@ + zero_bits(i as nat),
                self@.len() == old(self)@.len() + i,
                old(self)@.len() + n <= usize::MAX,
            decreases n - i,
        {
            proof {
                assert((old(self)@ + zero_bits(i as nat)).push(0u8) =~= old(self)@ + zero_bits(
                    (i + 1) as nat,
                ));
            }
            self.bits.push(0);
            i = i + 1;
        }
    }

    /// Rotates the whole sequence right by `n` positions, then zeroes the
    /// first `n` bits.
    pub fn shift_right(&mut self, n: usize)
        requires
            n <= old(self)@.len(),
        ensures
            final(self)@ == zero_bits(n as nat) + old(self)@.take(old(self)@.len() - n),
            old(self).wf() ==> final(self).wf(),
    {
        let len = self.bits.len();
        let mut out: Vec<u8> = Vec::new();
        let mut i: usize = 0;
        while i < n
            invariant
                i <= n <= len,
                len == self@.len(),
                self@ == old(self)@,
                out@ =~= zero_bits(i as nat),
            decreases n - i,
        {
            out.push(0);
            proof {
                assert(out@ =~= zero_bits((i + 1) as nat));
            }
            i = i + 1;
        }
        let mut j: usize = 0;
        while j < len - n
            invariant
                n <= len,
                len == self@.len(),
                self@ == old(self)@,
                j <= len - n,
                out@ =~= zero_bits(n as nat) + self@.take(j as int),
            decreases len - n - j,
        {
            proof {
                assert((zero_bits(n as nat) + self@.take(j as int)).push(self@[j as int]) =~= (
                zero_bits(n as nat) + self@.take(j + 1)));
            }
            out.push(self.bits[j]);
            j = j + 1;
        }
        self.bits = out;
    }

    /// The bits as a string of 0 and 1 digits.
    pub fn to_bit_string(&self) -> (r: String)
        requires
            self.wf(),
        ensures
            r@ == bit_chars(self@),
    {
        let ghost s = self@;
        let n = self.bits.len();
        let mut out = String::new();
        let mut i: usize = 0;
        while i < n
            invariant
                s == self@,
                self.wf(),
                n == s.len(),
                i <= n,
                out@ == bit_chars(s).take(i as int),
            decreases n - i,
        {
            proof {
                assert(bit_chars(s).take(i as int).push(bit_chars(s)[i as int]) =~= bit_chars(
                    s,
                ).take(i + 1));
            }
            push_char(&mut out, (48 + self.bits[i]) as char);
            i = i + 1;
        }
        proof {
            assert(bit_chars(s).take(n as int) =~= bit_chars(s));
        }
        out
    }

    /// The bits as a string of 0 and 1 digits with a space after every
    /// eighth digit, except at the very end.
    pub fn to_grouped_bit_string(&self) -> (r: String)
        requires
            self.wf(),
        ensures
            r@ == grouped_bit_chars(self@, 0),
    {
        let ghost s = self@;
        let n = self.bits.len();
        let mut out = String::new();
        let mut i: usize = 0;
        while i < n
            invariant
                s == self@,
                self.wf(),
                n == s.len(),
                i <= n,
                grouped_bit_chars(s, 0) == out@ + grouped_bit_chars(s, i as int),
            decreases n - i,
        {
            let ghost pre = out@;
            push_char(&mut out, (48 + self.bits[i]) as char);
            if (i + 1) % 8 == 0 && i < n - 1 {
                push_char(&mut out, ' ');
                proof {
                    let ch = ((48 + s[i as int]) as u8) as char;
                    assert(out@ =~= pre + seq![ch, ' ']);
                    assert(pre + (seq![ch, ' '] + grouped_bit_chars(s, i + 1)) =~= (pre + seq![
                        ch,
                        ' ',
                    ]) + grouped_bit_chars(s, i + 1));
                }
            } else {
                proof {
                    let ch = ((48 + s[i as int]) as u8) as char;
                    assert(out@ =~= pre + seq![ch]);
                    assert(pre + (seq![ch] + grouped_bit_chars(s, i + 1)) =~= (pre + seq![ch])
                        + grouped_bit_chars(s, i + 1));
                }
            }
            i = i + 1;
        }
        proof {
            assert(grouped_bit_chars(s, n as int) =~= Seq::<char>::empty());
            assert(out@ + Seq::<char>::empty() =~= out@);
        }
        out
    }

    /// Element-wise exclusive-or with another buffer of the same length;
    /// fails if the lengths differ.
    pub fn xor(&self, other: &Bits) -> (r: Result<Vec<u8>, BitsError>)
        ensures
            r is Ok <==> self@.len() == other@.len(),
            r matches Ok(v) ==> v@ == xor_seq(self@, other@),
            r is Err ==> r == Err::<Vec<u8>, BitsError>(BitsError::LengthMismatch),
    {
        let n = self.bits.len();
        if n != other.bits.len() {
            return Err(BitsError::LengthMismatch);
        }
        let mut out: Vec<u8> = Vec::new();
        let mut i: usize = 0;
        while i < n
            invariant
                n == self@.len(),
                n == other@.len(),
                i <= n,
                out@.len() == i,
                forall|j: int| 0 <= j < i ==> out@[j] == (self@[j] ^ other@[j]),
            decreases n - i,
        {
            out.push(self.bits[i] ^ other.bits[i]);
            i = i + 1;
        }
        proof {
            assert(out@ =~= xor_seq(self@, other@));
        }
        Ok(out)
    }
}

/// `2^n` for the small exponents the packing loop needs.
spec fn pow2_small(n: nat) -> int
    decreases n,
{
    if n == 0 {
        1
    } else {
        2 * pow2_small((n - 1) as nat)
    }
}

proof fn lemma_pow2_small_values()
    ensures
        pow2_small(8) == 256,
{
    reveal_with_fuel(pow2_small, 9);
}

proof fn lemma_pow2_small_mono(m: nat, n: nat)
    requires
        m <= n,
    ensures
        pow2_small(m) <= pow2_small(n),
        pow2_small(m) >= 1,
    decreases n,
{
    if m < n {
        lemma_pow2_small_mono(m, (n - 1) as nat);
    } else if n > 0 {
        lemma_pow2_small_mono((m - 1) as nat, (n - 1) as nat);
    }
}

/// The 8-bit groups of `data` in reversed order; a trailing partial group
/// comes first, and bits inside each group keep their order.
fn chunk_swapped(data: &[u8]) -> (r: Vec<u8>)
    ensures
        r@ == chunk_swap(data@),
{
    let ghost s = data@;
    let n = data.len();
    let mut rev: Vec<u8> = Vec::new();
    if n == 0 {
        return rev;
    }
    let chunks = n / 8 + (if n % 8 == 0 {
        0
    } else {
        1
    });
    let mut c: usize = chunks;
    assert(s.skip(n as int) =~= Seq::<u8>::empty());
    while c > 0
        invariant
            s == data@,
            n == s.len(),
            0 < n,
            c <= chunks,
            chunks == n / 8 + (if n % 8 == 0 { 0int } else { 1int }),
            rev@ == chunk_swap(s.skip(if 8 * c <= n { 8 * c } else { n as int })),
        decreases c,
    {
        let k = 8 * (c - 1);
        assert(k < n && (8 * c <= n || c == chunks)) by (nonlinear_arith)
            requires
                0 < c <= chunks,
                chunks == n / 8 + (if n % 8 == 0 { 0int } else { 1int }),
                0 < n,
                k == 8 * (c - 1),
        ;
        let end = if n - k >= 8 {
            k + 8
        } else {
            n
        };
        assert(end == if 8 * c <= n { 8 * c } else { n as int }) by (nonlinear_arith)
            requires
                0 < c <= chunks,
                chunks == n / 8 + (if n % 8 == 0 { 0int } else { 1int }),
                0 < n,
                k == 8 * (c - 1),
                end == if n - k >= 8 { (k + 8) as int } else { n as int },
        ;
        let ghost prev = rev@;
        let mut j: usize = k;
        while j < end
            invariant
                s == data@,
                n == s.len(),
                k <= j <= end <= n,
                rev@ == prev + s.subrange(k as int, j as int),
            decreases end - j,
        {
            proof {
                assert(s.subrange(k as int, j + 1) == s.subrange(k as int, j as int).push(
                    s[j as int],
                ));
            }
            rev.push(data[j]);
            j = j + 1;
        }
        proof {
            lemma_chunk_swap_step(s, k as int);
        }
        c = c - 1;
    }
    proof {
        assert(s.skip(0) =~= s);
    }
    rev
}

/// One step of chunk-order reversal: the groups of `s` from position `k`
/// on, reversed, are the groups after the group at `k`, reversed, followed
/// by the group at `k`.
proof fn lemma_chunk_swap_step(s: Seq<u8>, k: int)
    requires
        0 <= k < s.len(),
        k % 8 == 0,
    ensures
        chunk_swap(s.skip(k)) == chunk_swap(
            s.skip(
                if k + 8 <= s.len() {
                    k + 8
                } else {
                    s.len() as int
                },
            ),
        ) + s.subrange(
            k,
            if k + 8 <= s.len() {
                k + 8
            } else {
                s.len() as int
            },
        ),
{
    let n = s.len() as int;
    let t = s.skip(k);
    let end = if k + 8 <= n {
        k + 8
    } else {
        n
    };
    if t.len() <= 8 {
        assert(end == n);
        assert(s.skip(n) =~= Seq::<u8>::empty());
        assert(t =~= s.subrange(k, n));
        assert(chunk_swap(t) == t);
        assert(Seq::<u8>::empty() + s.subrange(k, n) =~= t);
    } else {
        assert(end == k + 8);
        assert(t.skip(8) =~= s.skip(k + 8));
        assert(t.take(8) =~= s.subrange(k, k + 8));
    }
}

/// Chunk-order reversal preserves the bit-value invariant.
proof fn lemma_chunk_swap_bits(s: Seq<u8>)
    requires
        all_bits(s),
    ensures
        all_bits(chunk_swap(s)),
        chunk_swap(s).len() == s.len(),
    decreases s.len(),
{
    if s.len() > 8 {
        lemma_chunk_swap_bits(s.skip(8));
    }
}

/// Exclusive-or of a bit sequence with itself is the all-zero sequence of
/// the same length.
pub proof fn lemma_xor_self(s: Seq<u8>)
    ensures
        xor_seq(s, s) == zero_bits(s.len()),
{
    assert forall|i: int| 0 <= i < s.len() implies xor_seq(s, s)[i] == 0u8 by {
        let x = s[i];
        assert(x ^ x == 0) by (bit_vector);
    }
    assert(xor_seq(s, s) =~= zero_bits(s.len()));
}

} // verus!
