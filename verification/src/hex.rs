//! An immutable view over raw bytes with hexadecimal projections. Input
//! bytes that form a well-shaped hexadecimal text (all ASCII hex digits, of
//! even count) are decoded to the bytes they denote; any other input is kept
//! as raw text bytes. The value can be expanded to bits in
//! most-significant-bit-first or least-significant-byte-first order, rendered
//! as uppercase hexadecimal text, and folded big-endian into a 64-bit word.

use vstd::arithmetic::div_mod::lemma_fundamental_div_mod;
use crate::utils::push_char;
use vstd::prelude::*;

verus! {

/// The byte is the ASCII code of a hexadecimal digit.
pub open spec fn is_hex_digit(c: u8) -> bool {
    (48 <= c && c <= 57) || (65 <= c && c <= 70) || (97 <= c && c <= 102)
}

/// The numeric value of an ASCII hexadecimal digit.
pub open spec fn hex_val(c: u8) -> u8 {
    if 48 <= c && c <= 57 {
        (c - 48) as u8
    } else if 65 <= c && c <= 70 {
        (c - 55) as u8
    } else if 97 <= c && c <= 102 {
        (c - 87) as u8
    } else {
        0
    }
}

/// The bytes form a hexadecimal text: every byte is an ASCII hex digit and
/// there is an even number of them.
pub open spec fn is_hex_text(s: Seq<u8>) -> bool {
    s.len() % 2 == 0 && forall|i: int| 0 <= i < s.len() ==> is_hex_digit(#[trigger] s[i])
}

/// The bytes denoted by a hexadecimal text: each pair of digits gives one
/// byte, high digit first.
pub open spec fn decode_hex(s: Seq<u8>) -> Seq<u8>
    decreases s.len(),
{
    if s.len() < 2 {
        Seq::empty()
    } else {
        decode_hex(s.drop_last().drop_last()).push(
            (hex_val(s[s.len() - 2]) * 16 + hex_val(s[s.len() - 1])) as u8,
        )
    }
}

/// The ASCII code of the uppercase hexadecimal digit for a value below 16.
pub open spec fn hex_digit_byte(d: u8) -> u8 {
    if d < 10 {
        (48 + d) as u8
    } else {
        (55 + d) as u8
    }
}

/// The uppercase hexadecimal text for a byte sequence: two digits per byte,
/// high digit first, no separators.
pub open spec fn encode_hex_bytes(s: Seq<u8>) -> Seq<u8>
    decreases s.len(),
{
    if s.len() == 0 {
        Seq::empty()
    } else {
        encode_hex_bytes(s.drop_last()) + seq![
            hex_digit_byte(s.last() / 16),
            hex_digit_byte(s.last() % 16),
        ]
    }
}

/// ASCII bytes read as characters.
pub open spec fn ascii_chars(s: Seq<u8>) -> Seq<char> {
    Seq::new(s.len(), |i: int| s[i] as char)
}

/// The 8 bits of a byte, most significant first, one byte per bit.
pub open spec fn byte_bits(b: u8) -> Seq<u8> {
    Seq::new(8, |i: int| (b >> ((7 - i) as u8)) & 1)
}

/// The bits of a byte sequence, each byte expanded most significant first.
pub open spec fn bits_of_bytes(s: Seq<u8>) -> Seq<u8>
    decreases s.len(),
{
    if s.len() == 0 {
        Seq::empty()
    } else {
        bits_of_bytes(s.drop_last()) + byte_bits(s.last())
    }
}

/// The big-endian fold of a byte sequence into a 64-bit word; bytes beyond
/// the eighth shift the earlier ones out at the top.
pub open spec fn be_u64(s: Seq<u8>) -> u64
    decreases s.len(),
{
    if s.len() == 0 {
        0u64
    } else {
        (be_u64(s.drop_last()) * 256 + s.last()) as u64
    }
}

/// Error cases of the hexadecimal codec.
#[derive(Debug, PartialEq, Eq, Structural)]
pub enum HexError {
    /// A byte that is not an ASCII hexadecimal digit was found where a
    /// hexadecimal text was required.
    InvalidHexString,
}

/// An immutable byte value obtained by decoding hexadecimal text or by
/// keeping raw bytes as they are.
#[derive(Debug, Clone)]
pub struct Hex {
    bytes: Vec<u8>,
}

impl View for Hex {
    type V = Seq<u8>;

    closed spec fn view(&self) -> Seq<u8> {
        self.bytes@
    }
}

/// Whether every byte is an ASCII hexadecimal digit.
fn all_hex_digits(data: &[u8]) -> (r: bool)
    ensures
        r == forall|i: int| 0 <= i < data@.len() ==> is_hex_digit(#[trigger] data@[i]),
{
    let n = data.len();
    let mut i: usize = 0;
    while i < n
        invariant
            n == data@.len(),
            i <= n,
            forall|j: int| 0 <= j < i ==> is_hex_digit(#[trigger] data@[j]),
        decreases n - i,
    {
        let c = data[i];
        if !((48 <= c && c <= 57) || (65 <= c && c <= 70) || (97 <= c && c <= 102)) {
            assert(!is_hex_digit(data@[i as int]));
            return false;
        }
        i = i + 1;
    }
    true
}

/// Decodes a well-shaped hexadecimal text, two digits to a byte.
fn decode_pairs(hex: &[u8]) -> (r: Vec<u8>)
    requires
        is_hex_text(hex@),
    ensures
        r@ == decode_hex(hex@),
{
    let ghost s = hex@;
    let n = hex.len();
    let mut out: Vec<u8> = Vec::new();
    let mut i: usize = 0;
    while i < n
        invariant
            s == hex@,
            n == s.len(),
            is_hex_text(s),
            i <= n,
            i % 2 == 0,
            out@ == decode_hex(s.take(i as int)),
        decreases n - i,
    {
        let hi = hex_val_exec(hex[i]);
        let lo = hex_val_exec(hex[i + 1]);
        proof {
            let t = s.take(i + 2);
            assert(t.drop_last().drop_last() =~= s.take(i as int));
            assert(t[t.len() - 2] == s[i as int]);
            assert(t[t.len() - 1] == s[i + 1]);
        }
        out.push(hi * 16 + lo);
        i = i + 2;
    }
    proof {
        assert(s.take(n as int) =~= s);
    }
    out
}

/// The numeric value of an ASCII hexadecimal digit.
fn hex_val_exec(c: u8) -> (r: u8)
    requires
        is_hex_digit(c),
    ensures
        r == hex_val(c),
        r < 16,
{
    if 48 <= c && c <= 57 {
        c - 48
    } else if 65 <= c && c <= 70 {
        c - 55
    } else {
        c - 87
    }
}

/// The ASCII code of the uppercase hexadecimal digit for a value below 16.
fn hex_digit_exec(d: u8) -> (r: u8)
    requires
        d < 16,
    ensures
        r == hex_digit_byte(d),
{
    if d < 10 {
        48 + d
    } else {
        55 + d
    }
}

impl Hex {
    /// Reinterprets hexadecimal text as the bytes it denotes; keeps any
    /// other input as raw bytes. Never fails.
    pub fn new(data: &[u8]) -> (r: Result<Hex, HexError>)
        ensures
            r matches Ok(h) ==> (if is_hex_text(data@) {
                h@ == decode_hex(data@)
            } else {
                h@ == data@
            }),
            r is Ok,
    {
        if data.len() % 2 == 0 && all_hex_digits(data) {
            Ok(Hex { bytes: decode_pairs(data) })
        } else {
            Ok(Hex { bytes: vstd::slice::slice_to_vec(data) })
        }
    }

    /// The bytes held.
    pub fn as_slice(&self) -> (r: &[u8])
        ensures
            r@ == self@,
    {
        self.bytes.as_slice()
    }

    /// Checks that the bytes are a hexadecimal text and decodes them, two
    /// digits to a byte; reports the text as invalid otherwise.
    pub fn hex_to_bytes(hex: &[u8]) -> (r: Result<Vec<u8>, HexError>)
        requires
            hex@.len() % 2 == 0,
        ensures
            r is Ok <==> is_hex_text(hex@),
            r matches Ok(v) ==> v@ == decode_hex(hex@),
            r is Err ==> r == Err::<Vec<u8>, HexError>(HexError::InvalidHexString),
    {
        if all_hex_digits(hex) {
            Ok(decode_pairs(hex))
        } else {
            Err(HexError::InvalidHexString)
        }
    }

    /// The bits of the bytes, each byte expanded most significant bit first.
    pub fn to_bits_msb(&self) -> (r: Vec<u8>)
        ensures
            r@ == bits_of_bytes(self@),
            crate::bits::all_bits(r@),
    {
        let ghost s = self@;
        let n = self.bytes.len();
        let mut out: Vec<u8> = Vec::new();
        let mut i: usize = 0;
        while i < n
            invariant
                s == self@,
                n == s.len(),
                i <= n,
                out@ == bits_of_bytes(s.take(i as int)),
            decreases n - i,
        {
            push_byte_bits(&mut out, self.bytes[i]);
            proof {
                assert(s.take(i + 1).drop_last() =~= s.take(i as int));
                assert(s.take(i + 1).last() == s[i as int]);
            }
            i = i + 1;
        }
        proof {
            assert(s.take(n as int) =~= s);
            lemma_bits_of_bytes_are_bits(s);
        }
        out
    }

    /// The bits in least-significant-byte-first order: the byte order is
    /// reversed first, then each byte is expanded most significant bit
    /// first.
    pub fn to_bits_lsb(&self) -> (r: Vec<u8>)
        ensures
            r@ == bits_of_bytes(self@.reverse()),
            crate::bits::all_bits(r@),
    {
        let ghost s = self@;
        let ghost rev = s.reverse();
        let n = self.bytes.len();
        let mut out: Vec<u8> = Vec::new();
        let mut i: usize = 0;
        while i < n
            invariant
                s == self@,
                rev == s.reverse(),
                n == s.len(),
                i <= n,
                out@ == bits_of_bytes(rev.take(i as int)),
            decreases n - i,
        {
            assert(rev[i as int] == s[n - 1 - i]);
            push_byte_bits(&mut out, self.bytes[n - 1 - i]);
            proof {
                assert(rev.take(i + 1).drop_last() =~= rev.take(i as int));
                assert(rev.take(i + 1).last() == rev[i as int]);
            }
            i = i + 1;
        }
        proof {
            assert(rev.take(n as int) =~= rev);
            lemma_bits_of_bytes_are_bits(rev);
        }
        out
    }

    /// Renders the bytes as uppercase hexadecimal text, two digits per byte.
    pub fn encode_upper(&self) -> (r: String)
        ensures
            r@ == ascii_chars(encode_hex_bytes(self@)),
    {
        let ghost s = self@;
        let n = self.bytes.len();
        let mut out = String::new();
        let mut i: usize = 0;
        while i < n
            invariant
                s == self@,
                n == s.len(),
                i <= n,
                out@ == ascii_chars(encode_hex_bytes(s.take(i as int))),
            decreases n - i,
        {
            let b = self.bytes[i];
            push_char(&mut out, hex_digit_exec(b / 16) as char);
            push_char(&mut out, hex_digit_exec(b % 16) as char);
            proof {
                assert(s.take(i + 1).drop_last() =~= s.take(i as int));
                assert(s.take(i + 1).last() == s[i as int]);
                assert(out@ =~= ascii_chars(encode_hex_bytes(s.take(i + 1))));
            }
            i = i + 1;
        }
        proof {
            assert(s.take(n as int) =~= s);
        }
        out
    }

    /// Folds all bytes big-endian into a 64-bit word; exact for values of at
    /// most 8 bytes, earlier bytes shift out at the top beyond that.
    pub fn as_u64(&self) -> (r: u64)
        ensures
            r == be_u64(self@),
    {
        let ghost s = self@;
        let n = self.bytes.len();
        let mut acc: u64 = 0;
        let mut i: usize = 0;
        while i < n
            invariant
                s == self@,
                n == s.len(),
                i <= n,
                acc == be_u64(s.take(i as int)),
            decreases n - i,
        {
            let b = self.bytes[i];
            proof {
                assert(s.take(i + 1).drop_last() =~= s.take(i as int));
                assert(s.take(i + 1).last() == s[i as int]);
                let a = acc;
                let bb = s[i as int];
                assert((a << 8u64) | (bb as u64) == ((a * 256 + bb) as u64)) by (bit_vector);
            }
            acc = (acc << 8) | (b as u64);
            i = i + 1;
        }
        proof {
            assert(s.take(n as int) =~= s);
        }
        acc
    }
}

/// Appends the 8 bits of a byte, most significant first.
fn push_byte_bits(out: &mut Vec<u8>, b: u8)
    ensures
        final(out)@ == old(out)@ + byte_bits(b),
{
    let mut k: usize = 0;
    while k < 8
        invariant
            k <= 8,
            out@ == old(out)@ + byte_bits(b).take(k as int),
        decreases 8 - k,
    {
        proof {
            let t = byte_bits(b);
            assert(t.take(k as int).push(t[k as int]) =~= t.take(k + 1));
            assert(old(out)@ + t.take(k as int).push(t[k as int]) =~= (old(out)@ + t.take(
                k as int,
            )).push(t[k as int]));
        }
        out.push((b >> (7 - k) as u8) & 1);
        k = k + 1;
    }
    proof {
        assert(byte_bits(b).take(8) =~= byte_bits(b));
    }
}

/// Every element that byte expansion produces is a bit value.
proof fn lemma_bits_of_bytes_are_bits(s: Seq<u8>)
    ensures
        crate::bits::all_bits(bits_of_bytes(s)),
        bits_of_bytes(s).len() == 8 * s.len(),
    decreases s.len(),
{
    if s.len() > 0 {
        lemma_bits_of_bytes_are_bits(s.drop_last());
        assert forall|i: int| 0 <= i < 8 implies crate::bits::is_bit(byte_bits(s.last())[i]) by {
            let b = s.last();
            let sh = (7 - i) as u8;
            assert((b >> sh) & 1 == 0 || (b >> sh) & 1 == 1) by (bit_vector);
        }
    }
}

/// Encoding bytes as uppercase hexadecimal text and decoding that text
/// gives back the original bytes, for every byte sequence.
pub proof fn lemma_hex_round_trip(bytes: Seq<u8>)
    ensures
        is_hex_text(encode_hex_bytes(bytes)),
        decode_hex(encode_hex_bytes(bytes)) == bytes,
    decreases bytes.len(),
{
    if bytes.len() == 0 {
        assert(decode_hex(encode_hex_bytes(bytes)) =~= bytes);
    } else {
        let prefix = encode_hex_bytes(bytes.drop_last());
        let b = bytes.last();
        let e = encode_hex_bytes(bytes);
        lemma_hex_round_trip(bytes.drop_last());
        assert(e == prefix + seq![hex_digit_byte(b / 16), hex_digit_byte(b % 16)]);
        assert forall|i: int| 0 <= i < e.len() implies is_hex_digit(#[trigger] e[i]) by {
            if i < prefix.len() {
                assert(e[i] == prefix[i]);
            }
        }
        assert(e.drop_last().drop_last() =~= prefix);
        assert(hex_val(hex_digit_byte(b / 16)) == b / 16);
        assert(hex_val(hex_digit_byte(b % 16)) == b % 16);
        lemma_fundamental_div_mod(b as int, 16);
        assert(decode_hex(e) =~= bytes);
    }
}

} // verus!
