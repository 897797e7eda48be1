//! A 64-bit-block Feistel cipher in the classical style: an initial
//! permutation, sixteen rounds driven by 48-bit subkeys from a rotating key
//! schedule, and a final permutation that undoes the initial one. Every
//! table-driven step goes through one generic bit-gather routine whose
//! bit-numbering convention (bit 1 is the most significant input bit) is
//! pinned down once and proved against an arithmetic model.

use vstd::arithmetic::div_mod::{
    lemma_div_denominator, lemma_div_multiples_vanish_fancy, lemma_fundamental_div_mod,
    lemma_mod_multiples_vanish, lemma_multiply_divide_lt, lemma_small_mod,
};
use vstd::arithmetic::power2::{lemma2_to64, lemma2_to64_rest, lemma_pow2_adds, lemma_pow2_pos, pow2};
use vstd::bits::lemma_u64_shr_is_div;
use vstd::prelude::*;

verus! {

/// Bit `k` of a nonnegative integer, counted from the least significant end.
pub open spec fn bit_at(x: int, k: nat) -> int {
    (x / pow2(k) as int) % 2
}

/// Every entry of a permutation table names an input bit position between 1
/// (most significant) and the input width.
pub open spec fn table_ok(t: Seq<u8>, w: int) -> bool {
    forall|j: int| 0 <= j < t.len() ==> 1 <= #[trigger] t[j] <= w
}

/// The value the bit-gather routine builds: entry `j` of the table selects
/// input bit `w - t[j]`, and the selected bits are assembled most
/// significant first.
pub open spec fn permute_val(t: Seq<u8>, w: int, d: u64) -> int
    decreases t.len(),
{
    if t.len() == 0 {
        0
    } else {
        2 * permute_val(t.drop_last(), w, d) + bit_at(d as int, (w - t.last()) as nat)
    }
}

/// An extracted bit is 0 or 1.
proof fn lemma_bit_at_is_bit(x: int, k: nat)
    requires
        x >= 0,
    ensures
        bit_at(x, k) == 0 || bit_at(x, k) == 1,
{
    lemma_pow2_pos(k);
}

/// Characterization of the gathered value: it is bounded by `2^len` and its
/// bit `len - 1 - j` is input bit `w - t[j]`, for every table entry `j`.
proof fn lemma_permute_bits(t: Seq<u8>, w: int, d: u64)
    ensures
        0 <= permute_val(t, w, d) < pow2(t.len()),
        forall|j: int|
            0 <= j < t.len() ==> bit_at(permute_val(t, w, d), (t.len() - 1 - j) as nat) == bit_at(
                d as int,
                (w - t[j]) as nat,
            ),
    decreases t.len(),
{
    let n = t.len() as int;
    if t.len() == 0 {
        assert(pow2(0) == 1) by {
            lemma2_to64();
        }
    } else {
        let prev = t.drop_last();
        let v0 = permute_val(prev, w, d);
        let b = bit_at(d as int, (w - t.last()) as nat);
        let v = permute_val(t, w, d);
        lemma_permute_bits(prev, w, d);
        lemma_bit_at_is_bit(d as int, (w - t.last()) as nat);
        assert(v == 2 * v0 + b);
        lemma_pow2_adds((n - 1) as nat, 1);
        lemma2_to64();
        assert(v < pow2(t.len()));
        assert forall|j: int| 0 <= j < n implies bit_at(v, (n - 1 - j) as nat) == bit_at(
            d as int,
            (w - t[j]) as nat,
        ) by {
            let k = (n - 1 - j) as nat;
            if j == n - 1 {
                assert(pow2(0) == 1) by {
                    lemma2_to64();
                }
                assert(v / pow2(0) as int == v);
                lemma_mod_multiples_vanish(v0, b, 2);
                lemma_small_mod(b as nat, 2);
                assert(bit_at(v, 0) == b);
            } else {
                assert(prev[j] == t[j]);
                assert(bit_at(v0, (n - 2 - j) as nat) == bit_at(d as int, (w - t[j]) as nat));
                lemma_pow2_adds(1, (k - 1) as nat);
                lemma2_to64();
                lemma_pow2_pos((k - 1) as nat);
                lemma_div_denominator(v, 2, pow2((k - 1) as nat) as int);
                lemma_div_multiples_vanish_fancy(v0, b, 2);
                assert(v / 2 == v0);
                assert(v / pow2(k) as int == v0 / pow2((k - 1) as nat) as int);
                assert(bit_at(v, k) == bit_at(v0, (k - 1) as nat));
            }
        }
    }
}

/// Two nonnegative integers below `2^n` with the same `n` low bits are
/// equal.
proof fn lemma_bits_eq(x: int, y: int, n: nat)
    requires
        0 <= x < pow2(n),
        0 <= y < pow2(n),
        forall|k: nat| k < n ==> #[trigger] bit_at(x, k) == bit_at(y, k),
    ensures
        x == y,
    decreases n,
{
    if n == 0 {
        assert(pow2(0) == 1) by {
            lemma2_to64();
        }
    } else {
        assert(pow2(0) == 1 && pow2(1) == 2) by {
            lemma2_to64();
        }
        assert(bit_at(x, 0) == bit_at(y, 0));
        assert(x % 2 == y % 2);
        lemma_pow2_adds(1, (n - 1) as nat);
        lemma_multiply_divide_lt(x, 2, pow2((n - 1) as nat) as int);
        lemma_multiply_divide_lt(y, 2, pow2((n - 1) as nat) as int);
        assert forall|k: nat| k < (n - 1) as nat implies #[trigger] bit_at(x / 2, k) == bit_at(
            y / 2,
            k,
        ) by {
            lemma_pow2_pos(k);
            lemma_pow2_adds(1, k);
            lemma_div_denominator(x, 2, pow2(k) as int);
            lemma_div_denominator(y, 2, pow2(k) as int);
            assert(bit_at(x / 2, k) == bit_at(x, (k + 1) as nat));
            assert(bit_at(y / 2, k) == bit_at(y, (k + 1) as nat));
            assert(bit_at(x, (k + 1) as nat) == bit_at(y, (k + 1) as nat));
        }
        lemma_bits_eq(x / 2, y / 2, (n - 1) as nat);
        lemma_fundamental_div_mod(x, 2);
        lemma_fundamental_div_mod(y, 2);
    }
}

/// The high 28 bits of a 56-bit word.
pub open spec fn split_hi(x: u64) -> u32 {
    (x as int / pow2(28) as int) as u32
}

/// The low 28 bits of a word.
pub open spec fn split_lo(x: u64) -> u32 {
    (x as int % pow2(28) as int) as u32
}

/// Left circular rotation of a 28-bit word held in a `u32`, exactly as the
/// engine computes it: shift left, fold the overflow back in, mask to 28
/// bits.
pub open spec fn rot28(x: u32, shift: u8) -> u32 {
    ((x << (shift as u32)) | (x >> ((28 - shift) as u32))) & 0x0FFF_FFFF
}

/// The rotation amount of a schedule round: 1 for rounds 0, 1, 8 and 15,
/// else 2.
pub open spec fn shift_amount(round: int) -> u8 {
    if round == 0 || round == 1 || round == 8 || round == 15 {
        1
    } else {
        2
    }
}

/// The first permuted-choice applied to the 64-bit key, as a 56-bit word.
pub open spec fn pc1_u64(key: u64) -> u64 {
    permute_val(Des::PC1_TABLE@, 64, key) as u64
}

/// The two 28-bit key-schedule halves after `r` rotation rounds.
pub open spec fn halves(key: u64, r: int) -> (u32, u32)
    decreases r,
{
    if r <= 0 {
        (split_hi(pc1_u64(key)), split_lo(pc1_u64(key)))
    } else {
        let (c, d) = halves(key, r - 1);
        (rot28(c, shift_amount(r - 1)), rot28(d, shift_amount(r - 1)))
    }
}

/// Two 28-bit halves joined into a 56-bit word.
pub open spec fn combine28(c: u32, d: u32) -> u64 {
    ((c as u64) << 28u64) | (d as u64)
}

/// The 48-bit subkey of round `r`: the second permuted-choice applied to
/// the rotated halves after `r + 1` rotation rounds.
pub open spec fn subkey_val(key: u64, r: int) -> int {
    permute_val(Des::PC2_TABLE@, 56, combine28(halves(key, r + 1).0, halves(key, r + 1).1))
}

/// The sixteen round subkeys of a key.
pub open spec fn subkeys_spec(key: u64) -> Seq<u64> {
    Seq::new(16, |r: int| subkey_val(key, r) as u64)
}

/// The row a 6-bit chunk selects in a substitution table: its outer two
/// bits.
pub open spec fn sbox_row(chunk: u64) -> int {
    (((chunk & 0x20) >> 4u64) | (chunk & 1)) as int
}

/// The column a 6-bit chunk selects in a substitution table: its inner four
/// bits.
pub open spec fn sbox_col(chunk: u64) -> int {
    ((chunk & 0x1E) >> 1u64) as int
}

/// The 4-bit value a substitution table gives for a 6-bit chunk.
pub open spec fn sbox_cell(s_box: [[u8; 16]; 4], chunk: u64) -> u8 {
    s_box@[sbox_row(chunk)]@[sbox_col(chunk)]
}

/// The `j`-th 6-bit chunk of a 48-bit word, leftmost chunk first.
pub open spec fn chunk_piece(chunk: u64, j: int) -> u64 {
    (chunk >> ((6 * (7 - j)) as u64)) & 0x3F
}

/// The substituted value after the first `i` of the eight table lookups,
/// assembled most significant first.
pub open spec fn sbox_acc(chunk: u64, i: int) -> int
    decreases i,
{
    if i <= 0 {
        0
    } else {
        16 * sbox_acc(chunk, i - 1) + sbox_cell(Des::S_BOXES[i - 1], chunk_piece(chunk, i - 1))
    }
}

/// The Feistel round function: expand the 32-bit half to 48 bits, mix in
/// the subkey, substitute through the eight tables, then diffuse.
pub open spec fn f_val(r: u32, k: u64) -> u32 {
    let expanded = permute_val(Des::EXPANSION_TABLE@, 32, r as u64) as u64;
    let mixed = expanded ^ k;
    let substituted = sbox_acc(mixed, 8) as u64;
    permute_val(Des::P_BOX@, 32, substituted) as u32
}

/// The halves after running one Feistel round for each subkey in `ks`, in
/// order.
pub open spec fn rounds_val(l: u32, r: u32, ks: Seq<u64>) -> (u32, u32)
    decreases ks.len(),
{
    if ks.len() == 0 {
        (l, r)
    } else {
        rounds_val(r, f_val(r, ks[0]) ^ l, ks.skip(1))
    }
}

/// The high 32 bits of a 64-bit block.
pub open spec fn hi32(x: u64) -> u32 {
    (x >> 32u64) as u32
}

/// The low 32 bits of a 64-bit block.
pub open spec fn lo32(x: u64) -> u32 {
    (x & 0xFFFF_FFFF) as u32
}

/// Two 32-bit halves joined into a 64-bit block, first argument on top.
pub open spec fn combine64(a: u32, b: u32) -> u64 {
    ((a as u64) << 32u64) | (b as u64)
}

/// The whole cipher on one block: initial permutation, sixteen rounds in
/// subkey order, the swapped recombination, and the final permutation.
pub open spec fn encrypt_val(key: u64, p: u64) -> u64 {
    let permuted = permute_val(Des::IP_TABLE@, 64, p) as u64;
    let l0 = hi32(permuted);
    let r0 = lo32(permuted);
    let pair = rounds_val(l0, r0, subkeys_spec(key));
    let pre = combine64(pair.1, pair.0);
    permute_val(Des::FP_TABLE@, 64, pre) as u64
}

/// Deciphering a block: identical, but the rounds run in reverse subkey
/// order.
pub open spec fn decrypt_val(key: u64, c: u64) -> u64 {
    let permuted = permute_val(Des::IP_TABLE@, 64, c) as u64;
    let l0 = hi32(permuted);
    let r0 = lo32(permuted);
    let pair = rounds_val(l0, r0, subkeys_spec(key).reverse());
    let pre = combine64(pair.1, pair.0);
    permute_val(Des::FP_TABLE@, 64, pre) as u64
}

/// Every substitution-table entry is a 4-bit value.
proof fn lemma_sbox_cells_small()
    ensures
        forall|i: int, r: int, c: int|
            0 <= i < 8 && 0 <= r < 4 && 0 <= c < 16 ==> #[trigger] Des::S_BOXES@[i]@[r]@[c] < 16,
{
}

/// The block cipher engine: a 64-bit key, the cache of its sixteen round
/// subkeys, and the flag that says whether the cache is filled.
pub struct Des {
    pub key: u64,
    pub subkeys: [u64; 16],
    pub subkeys_computed: bool,
}

impl Des {
    pub const IP_TABLE: [u8; 64] = [
        58, 50, 42, 34, 26, 18, 10, 2, 60, 52, 44, 36, 28, 20, 12, 4, 62, 54, 46, 38, 30, 22, 14,
        6, 64, 56, 48, 40, 32, 24, 16, 8, 57, 49, 41, 33, 25, 17, 9, 1, 59, 51, 43, 35, 27, 19, 11,
        3, 61, 53, 45, 37, 29, 21, 13, 5, 63, 55, 47, 39, 31, 23, 15, 7,
    ];

    pub const FP_TABLE: [u8; 64] = [
        40, 8, 48, 16, 56, 24, 64, 32, 39, 7, 47, 15, 55, 23, 63, 31, 38, 6, 46, 14, 54, 22, 62,
        30, 37, 5, 45, 13, 53, 21, 61, 29, 36, 4, 44, 12, 52, 20, 60, 28, 35, 3, 43, 11, 51, 19,
        59, 27, 34, 2, 42, 10, 50, 18, 58, 26, 33, 1, 41, 9, 49, 17, 57, 25,
    ];

    pub const PC1_TABLE: [u8; 56] = [
        57, 49, 41, 33, 25, 17, 9, 1, 58, 50, 42, 34, 26, 18, 10, 2, 59, 51, 43, 35, 27, 19, 11, 3,
        60, 52, 44, 36, 63, 55, 47, 39, 31, 23, 15, 7, 62, 54, 46, 38, 30, 22, 14, 6, 61, 53, 45,
        37, 29, 21, 13, 5, 28, 20, 12, 4,
    ];

    pub const PC2_TABLE: [u8; 48] = [
        14, 17, 11, 24, 1, 5, 3, 28, 15, 6, 21, 10, 23, 19, 12, 4, 26, 8, 16, 7, 27, 20, 13, 2, 41,
        52, 31, 37, 47, 55, 30, 40, 51, 45, 33, 48, 44, 49, 39, 56, 34, 53, 46, 42, 50, 36, 29, 32,
    ];

    pub const EXPANSION_TABLE: [u8; 48] = [
        32, 1, 2, 3, 4, 5, 4, 5, 6, 7, 8, 9, 8, 9, 10, 11, 12, 13, 12, 13, 14, 15, 16, 17, 16, 17,
        18, 19, 20, 21, 20, 21, 22, 23, 24, 25, 24, 25, 26, 27, 28, 29, 28, 29, 30, 31, 32, 1,
    ];

    pub const S1: [[u8; 16]; 4] = [
        [14, 4, 13, 1, 2, 15, 11, 8, 3, 10, 6, 12, 5, 9, 0, 7],
        [0, 15, 7, 4, 14, 2, 13, 1, 10, 6, 12, 11, 9, 5, 3, 8],
        [4, 1, 14, 8, 13, 6, 2, 11, 15, 12, 9, 7, 3, 10, 5, 0],
        [15, 12, 8, 2, 4, 9, 1, 7, 5, 11, 3, 14, 10, 0, 6, 13],
    ];

    pub const S2: [[u8; 16]; 4] = [
        [15, 1, 8, 14, 6, 11, 3, 4, 9, 7, 2, 13, 12, 0, 5, 10],
        [3, 13, 4, 7, 15, 2, 8, 14, 12, 0, 1, 10, 6, 9, 11, 5],
        [0, 14, 7, 11, 10, 4, 13, 1, 5, 8, 12, 6, 9, 3, 2, 15],
        [13, 8, 10, 1, 3, 15, 4, 2, 11, 6, 7, 12, 0, 5, 14, 9],
    ];

    pub const S3: [[u8; 16]; 4] = [
        [10, 0, 9, 14, 6, 3, 15, 5, 1, 13, 12, 7, 11, 4, 2, 8],
        [13, 7, 0, 9, 3, 4, 6, 10, 2, 8, 5, 14, 12, 11, 15, 1],
        [13, 6, 4, 9, 8, 15, 3, 0, 11, 1, 2, 12, 5, 10, 14, 7],
        [1, 10, 13, 0, 6, 9, 8, 7, 4, 15, 14, 3, 11, 5, 2, 12],
    ];

    pub const S4: [[u8; 16]; 4] = [
        [7, 13, 14, 3, 0, 6, 9, 10, 1, 2, 8, 5, 11, 12, 4, 15],
        [13, 8, 11, 5, 6, 15, 0, 3, 4, 7, 2, 12, 1, 10, 14, 9],
        [10, 6, 9, 0, 12, 11, 7, 13, 15, 1, 3, 14, 5, 2, 8, 4],
        [3, 15, 0, 6, 10, 1, 13, 8, 9, 4, 5, 11, 12, 7, 2, 14],
    ];

    pub const S5: [[u8; 16]; 4] = [
        [2, 12, 4, 1, 7, 10, 11, 6, 8, 5, 3, 15, 13, 0, 14, 9],
        [14, 11, 2, 12, 4, 7, 13, 1, 5, 0, 15, 10, 3, 9, 8, 6],
        [4, 2, 1, 11, 10, 13, 7, 8, 15, 9, 12, 5, 6, 3, 0, 14],
        [11, 8, 12, 7, 1, 14, 2, 13, 6, 15, 0, 9, 10, 4, 5, 3],
    ];

    pub const S6: [[u8; 16]; 4] = [
        [12, 1, 10, 15, 9, 2, 6, 8, 0, 13, 3, 4, 14, 7, 5, 11],
        [10, 15, 4, 2, 7, 12, 9, 5, 6, 1, 13, 14, 0, 11, 3, 8],
        [9, 14, 15, 5, 2, 8, 12, 3, 7, 0, 4, 10, 1, 13, 11, 6],
        [4, 3, 2, 12, 9, 5, 15, 10, 11, 14, 1, 7, 6, 0, 8, 13],
    ];

    pub const S7: [[u8; 16]; 4] = [
        [4, 11, 2, 14, 15, 0, 8, 13, 3, 12, 9, 7, 5, 10, 6, 1],
        [13, 0, 11, 7, 4, 9, 1, 10, 14, 3, 5, 12, 2, 15, 8, 6],
        [1, 4, 11, 13, 12, 3, 7, 14, 10, 15, 6, 8, 0, 5, 9, 2],
        [6, 11, 13, 8, 1, 4, 10, 7, 9, 5, 0, 15, 14, 2, 3, 12],
    ];

    pub const S8: [[u8; 16]; 4] = [
        [13, 2, 8, 4, 6, 15, 11, 1, 10, 9, 3, 14, 5, 0, 12, 7],
        [1, 15, 13, 8, 10, 3, 7, 4, 12, 5, 6, 11, 0, 14, 9, 2],
        [7, 11, 4, 1, 9, 12, 14, 2, 0, 6, 10, 13, 15, 3, 5, 8],
        [2, 1, 14, 7, 4, 10, 8, 13, 15, 12, 9, 0, 3, 5, 6, 11],
    ];

    pub const S_BOXES: [[[u8; 16]; 4]; 8] = [
        Self::S1,
        Self::S2,
        Self::S3,
        Self::S4,
        Self::S5,
        Self::S6,
        Self::S7,
        Self::S8,
    ];

    pub const P_BOX: [u8; 32] = [
        16, 7, 20, 21, 29, 12, 28, 17, 1, 15, 23, 26, 5, 18, 31, 10, 2, 8, 24, 14, 32, 27, 3, 9,
        19, 13, 30, 6, 22, 11, 4, 25,
    ];

    /// The bit-gather routine behind every permutation, expansion and
    /// compression table of the cipher. Table entries number input bits from
    /// 1 at the most significant end of a `input_key_length`-bit word; the
    /// selected bits are assembled most significant first.
    pub fn permute(&self, table: &[u8], input_key_length: u8, data: u64) -> (r: u64)
        requires
            table@.len() <= 64,
            input_key_length <= 64,
            table_ok(table@, input_key_length as int),
        ensures
            r == permute_val(table@, input_key_length as int, data),
            r < pow2(table@.len()),
    {
        let ghost t = table@;
        let ghost w = input_key_length as int;
        let n = table.len();
        let mut output: u64 = 0;
        let mut j: usize = 0;
        proof {
            lemma2_to64();
        }
        while j < n
            invariant
                t == table@,
                w == input_key_length as int,
                n == t.len() <= 64,
                input_key_length <= 64,
                table_ok(t, w),
                j <= n,
                output == permute_val(t.take(j as int), w, data),
                output < pow2(j as nat),
            decreases n - j,
        {
            let pos: u8 = input_key_length - table[j];
            let bit: u64 = (data >> (pos as u64)) & 1;
            proof {
                lemma_u64_shr_is_div(data, pos as u64);
                let q = (data as nat / pow2(pos as nat)) as u64;
                assert(q & 1 == q % 2) by (bit_vector);
                assert(bit == bit_at(data as int, pos as nat));
                assert(t.take(j + 1).drop_last() =~= t.take(j as int));
                assert(t.take(j + 1).last() == t[j as int]);
                lemma_pow2_adds(j as nat, 1);
                lemma2_to64();
                lemma2_to64_rest();
                assert(pow2(64) == 0x10000000000000000);
            }
            output = output * 2 + bit;
            j = j + 1;
        }
        proof {
            assert(t.take(n as int) =~= t);
        }
        output
    }

    /// A fresh engine for a key, with no subkeys computed yet.
    pub fn new(key: u64) -> (r: Des)
        ensures
            r.key == key,
            r.subkeys@ == Seq::new(16, |i: int| 0u64),
            !r.subkeys_computed,
            r.wf(),
    {
        let r = Des { key, subkeys: [0, 0, 0, 0, 0, 0, 0, 0, 0, 0, 0, 0, 0, 0, 0, 0], subkeys_computed: false };
        proof {
            assert(r.subkeys@ =~= Seq::new(16, |i: int| 0u64));
        }
        r
    }

    /// The cache is filled only with the subkeys of the held key.
    pub open spec fn wf(&self) -> bool {
        self.subkeys_computed ==> self.subkeys@ == subkeys_spec(self.key)
    }

    /// Splits a 56-bit word into its upper and lower 28 bits.
    pub fn split_key(&self, key: u64) -> (r: (u32, u32))
        requires
            key < 0x100_0000_0000_0000,
        ensures
            r.0 == split_hi(key),
            r.1 == split_lo(key),
    {
        let c0 = (key >> 28u64) as u32;
        let d0 = (key & 0xFFF_FFFF) as u32;
        proof {
            lemma2_to64();
            lemma_u64_shr_is_div(key, 28u64);
            assert(key as nat / pow2(28) < pow2(28)) by {
                lemma_pow2_adds(28, 28);
                lemma_multiply_divide_lt(key as int, pow2(28) as int, pow2(28) as int);
            }
            assert(key & 0xFFF_FFFF == key % 0x1000_0000) by (bit_vector);
        }
        (c0, d0)
    }

    /// Derives and caches the sixteen round subkeys of `key`: permuted
    /// choice 1, sixteen double-or-single left rotations of the two 28-bit
    /// halves, permuted choice 2 after each.
    pub fn key_schedule(&mut self, key: u64) -> (r: [u64; 16])
        ensures
            r@ == subkeys_spec(key),
            final(self).subkeys@ == subkeys_spec(key),
            final(self).subkeys_computed,
            final(self).key == old(self).key,
            key == old(self).key ==> final(self).wf(),
    {
        let permuted_key = self.perm_choice_1(key);
        proof {
            lemma2_to64_rest();
        }
        let (c0, d0) = self.split_key(permuted_key);
        let mut c = c0;
        let mut d = d0;
        let mut round: usize = 0;
        while round < 16
            invariant
                round <= 16,
                c == halves(key, round as int).0,
                d == halves(key, round as int).1,
                forall|k: int|
                    0 <= k < round ==> self.subkeys@[k] == subkey_val(key, k) as u64,
                self.subkeys@.len() == 16,
                self.key == old(self).key,
                self.subkeys_computed == old(self).subkeys_computed,
            decreases 16 - round,
        {
            let shift: u8 = match round {
                0 | 1 | 8 | 15 => 1,
                _ => 2,
            };
            assert(shift == shift_amount(round as int));
            c = self.left_rotation(c, shift);
            d = self.left_rotation(d, shift);
            assert(c == halves(key, round + 1).0 && d == halves(key, round + 1).1);
            let round_key = ((c as u64) << 28u64) | (d as u64);
            let sk = self.perm_choice_2(round_key);
            self.subkeys[round] = sk;
            round = round + 1;
        }
        self.subkeys_computed = true;
        proof {
            assert(self.subkeys@ =~= subkeys_spec(key));
        }
        self.subkeys
    }

    /// The initial permutation of a 64-bit block.
    pub fn initial_permutation(&self, plain_text: u64) -> (r: u64)
        ensures
            r == permute_val(Des::IP_TABLE@, 64, plain_text),
    {
        self.permute(&Self::IP_TABLE, 64, plain_text)
    }

    /// Permuted choice 1: reduces the 64-bit key to its 56 effective bits.
    pub fn perm_choice_1(&mut self, key: u64) -> (r: u64)
        ensures
            r == pc1_u64(key),
            r < 0x100_0000_0000_0000,
            *final(self) == *old(self),
    {
        proof {
            lemma2_to64_rest();
        }
        self.permute(&Self::PC1_TABLE, 64, key)
    }

    /// Permuted choice 2: compresses a 56-bit word to a 48-bit subkey.
    pub fn perm_choice_2(&mut self, key: u64) -> (r: u64)
        ensures
            r == permute_val(Des::PC2_TABLE@, 56, key),
            *final(self) == *old(self),
    {
        self.permute(&Self::PC2_TABLE, 56, key)
    }

    /// The final permutation of a 64-bit block, inverse to the initial one.
    pub fn final_permutation(&mut self, key: u64) -> (r: u64)
        ensures
            r == permute_val(Des::FP_TABLE@, 64, key),
            *final(self) == *old(self),
    {
        self.permute(&Self::FP_TABLE, 64, key)
    }

    /// Left circular rotation of a 28-bit half by `shift` positions.
    pub fn left_rotation(&mut self, key: u32, shift: u8) -> (r: u32)
        requires
            shift <= 28,
        ensures
            r == rot28(key, shift),
            r < 0x1000_0000,
            *final(self) == *old(self),
    {
        let shifted_left_bits = key << (shift as u32);
        let overflow_bits = key >> ((28 - shift) as u32);
        let result = shifted_left_bits | overflow_bits;
        let mask_28: u32 = 0xFFF_FFFF;
        proof {
            assert(result & 0xFFF_FFFFu32 < 0x1000_0000) by (bit_vector);
        }
        result & mask_28
    }

    /// Expands the 32-bit right half to 48 bits through the expansion table.
    pub fn expand_right_half(&self, r: u32) -> (res: u64)
        ensures
            res == permute_val(Des::EXPANSION_TABLE@, 32, r as u64),
    {
        self.permute(&Self::EXPANSION_TABLE, 32, r as u64)
    }

    /// Looks one 6-bit chunk up in a substitution table: the outer two bits
    /// select the row, the inner four the column.
    pub fn s_box_lookup(&self, s_box: &[[u8; 16]; 4], chunk: u64) -> (r: u64)
        ensures
            r == sbox_cell(*s_box, chunk),
    {
        let top_bit = (chunk & 0b100000) >> 4u64;
        let bottom_bit = chunk & 0b000001;
        let row = top_bit | bottom_bit;
        let column = (chunk & 0b011110) >> 1u64;
        proof {
            assert(((chunk & 0x20) >> 4u64) | (chunk & 1) < 4) by (bit_vector);
            assert((chunk & 0x1E) >> 1u64 < 16) by (bit_vector);
        }
        let value = s_box[row as usize][column as usize];
        value as u64
    }

    /// Substitutes a 48-bit word chunk by chunk through the eight tables,
    /// producing 32 bits.
    pub fn s_box_substitution(&self, chunk: u64) -> (r: u32)
        ensures
            r == sbox_acc(chunk, 8),
    {
        let mut output: u32 = 0;
        let mut i: usize = 0;
        proof {
            lemma2_to64();
            lemma_sbox_cells_small();
        }
        while i < 8
            invariant
                i <= 8,
                output == sbox_acc(chunk, i as int),
                output < pow2((4 * i) as nat),
                forall|a: int, b: int, c: int|
                    0 <= a < 8 && 0 <= b < 4 && 0 <= c < 16 ==> #[trigger] Des::S_BOXES@[a]@[b]@[c]
                        < 16,
            decreases 8 - i,
        {
            let input_shift = 6 * (7 - i);
            let piece = (chunk >> (input_shift as u64)) & 0b111111;
            let value = self.s_box_lookup(&Self::S_BOXES[i], piece);
            proof {
                lemma2_to64();
                lemma_pow2_adds((4 * i) as nat, 4);
                assert(piece == chunk_piece(chunk, i as int));
                assert(Des::S_BOXES@[i as int]@[sbox_row(piece)]@[sbox_col(piece)] < 16) by {
                    assert(((piece & 0x20) >> 4u64) | (piece & 1) < 4) by (bit_vector);
                    assert((piece & 0x1E) >> 1u64 < 16) by (bit_vector);
                }
            }
            output = output * 16 + (value as u32);
            i = i + 1;
        }
        output
    }

    /// Diffuses the substituted 32 bits through the straight permutation.
    pub fn p_box_substitution(&self, chunk: u32) -> (r: u32)
        ensures
            r == permute_val(Des::P_BOX@, 32, chunk as u64),
    {
        let v = self.permute(&Self::P_BOX, 32, chunk as u64);
        proof {
            lemma2_to64();
        }
        v as u32
    }

    /// One Feistel round: the new left half is the old right half, and the
    /// new right half is the round function of the right half and subkey,
    /// mixed into the old left half.
    pub fn feistel_round(&self, l: u32, r: u32, subkey: u64) -> (res: (u32, u32))
        ensures
            res.0 == r,
            res.1 == f_val(r, subkey) ^ l,
    {
        let expanded_right_half = self.expand_right_half(r);
        let mixed_right_half = expanded_right_half ^ subkey;
        let s_box_output = self.s_box_substitution(mixed_right_half);
        let p_box_output = self.p_box_substitution(s_box_output);
        let xored_output = p_box_output ^ l;
        (r, xored_output)
    }

    /// Runs the sixteen rounds in subkey order.
    pub fn feistel_rounds(&self, l: u32, r: u32, subkeys: &[u64; 16]) -> (res: (u32, u32))
        ensures
            res == rounds_val(l, r, subkeys@),
    {
        let ghost ks = subkeys@;
        let mut cl = l;
        let mut cr = r;
        let mut round: usize = 0;
        proof {
            assert(ks.take(0) =~= Seq::<u64>::empty());
        }
        while round < 16
            invariant
                ks == subkeys@,
                ks.len() == 16,
                round <= 16,
                (cl, cr) == rounds_val(l, r, ks.take(round as int)),
            decreases 16 - round,
        {
            let subkey = subkeys[round];
            proof {
                lemma_rounds_snoc(l, r, ks.take(round as int), ks[round as int]);
                assert(ks.take(round as int).push(ks[round as int]) =~= ks.take(round + 1));
            }
            let next = self.feistel_round(cl, cr, subkey);
            cl = next.0;
            cr = next.1;
            round = round + 1;
        }
        proof {
            assert(ks.take(16) =~= ks);
        }
        (cl, cr)
    }

    /// Runs the sixteen rounds in reverse subkey order.
    pub fn feistel_rounds_rev(&self, l: u32, r: u32, subkeys: &[u64; 16]) -> (res: (u32, u32))
        ensures
            res == rounds_val(l, r, subkeys@.reverse()),
    {
        let ghost ks = subkeys@;
        let ghost rev = ks.reverse();
        let mut cl = l;
        let mut cr = r;
        let mut round: usize = 16;
        proof {
            assert(rev.take(0) =~= Seq::<u64>::empty());
        }
        while round > 0
            invariant
                ks == subkeys@,
                ks.len() == 16,
                rev == ks.reverse(),
                round <= 16,
                (cl, cr) == rounds_val(l, r, rev.take(16 - round)),
            decreases round,
        {
            let i = round - 1;
            let subkey = subkeys[i];
            proof {
                let done = 16 - round;
                assert(rev[done as int] == ks[i as int]);
                lemma_rounds_snoc(l, r, rev.take(done as int), rev[done as int]);
                assert(rev.take(done as int).push(rev[done as int]) =~= rev.take(done + 1));
            }
            let next = self.feistel_round(cl, cr, subkey);
            cl = next.0;
            cr = next.1;
            round = i;
        }
        proof {
            assert(rev.take(16) =~= rev);
        }
        (cl, cr)
    }

    /// Enciphers one 64-bit block with the held key, deriving the subkeys
    /// on first use and reusing the cache afterwards.
    pub fn encrypt(&mut self, plain_text: u64) -> (r: u64)
        requires
            old(self).wf(),
        ensures
            r == encrypt_val(old(self).key, plain_text),
            final(self).key == old(self).key,
            final(self).subkeys@ == subkeys_spec(old(self).key),
            final(self).subkeys_computed,
            final(self).wf(),
    {
        let permuted_text = self.initial_permutation(plain_text);
        proof {
            assert(permuted_text >> 32u64 < 0x1_0000_0000) by (bit_vector);
            assert(permuted_text & 0xFFFF_FFFF < 0x1_0000_0000) by (bit_vector);
        }
        let l0 = (permuted_text >> 32u64) as u32;
        let r0 = (permuted_text & 0xFFFF_FFFF) as u32;
        let subkeys = if self.subkeys_computed {
            self.subkeys
        } else {
            self.key_schedule(self.key)
        };
        let pair = self.feistel_rounds(l0, r0, &subkeys);
        let l16 = pair.0;
        let r16 = pair.1;
        let pre_final_permutation = ((r16 as u64) << 32u64) | (l16 as u64);
        self.final_permutation(pre_final_permutation)
    }

    /// Deciphers one 64-bit block with the held key, recomputing the
    /// subkeys and running the rounds in reverse order.
    pub fn decrypt(&mut self, cipher_text: u64) -> (r: u64)
        ensures
            r == decrypt_val(old(self).key, cipher_text),
            final(self).key == old(self).key,
            final(self).subkeys@ == subkeys_spec(old(self).key),
            final(self).subkeys_computed,
            final(self).wf(),
    {
        let permuted_text = self.initial_permutation(cipher_text);
        proof {
            assert(permuted_text >> 32u64 < 0x1_0000_0000) by (bit_vector);
            assert(permuted_text & 0xFFFF_FFFF < 0x1_0000_0000) by (bit_vector);
        }
        let l0 = (permuted_text >> 32u64) as u32;
        let r0 = (permuted_text & 0xFFFF_FFFF) as u32;
        let subkeys = self.key_schedule(self.key);
        let pair = self.feistel_rounds_rev(l0, r0, &subkeys);
        let l16 = pair.0;
        let r16 = pair.1;
        let pre_final_permutation = ((r16 as u64) << 32u64) | (l16 as u64);
        self.final_permutation(pre_final_permutation)
    }
}

/// Appending one more subkey to a run of rounds applies one more round to
/// its outcome.
proof fn lemma_rounds_snoc(l: u32, r: u32, ks: Seq<u64>, k: u64)
    ensures
        rounds_val(l, r, ks.push(k)).0 == rounds_val(l, r, ks).1,
        rounds_val(l, r, ks.push(k)).1 == f_val(rounds_val(l, r, ks).1, k) ^ rounds_val(
            l,
            r,
            ks,
        ).0,
    decreases ks.len(),
{
    if ks.len() == 0 {
        let e = Seq::<u64>::empty();
        assert(ks.push(k)[0] == k);
        assert(ks.push(k).skip(1) =~= e);
        assert(rounds_val(l, r, ks) == (l, r));
        assert(rounds_val(l, r, ks.push(k)) == rounds_val(r, f_val(r, k) ^ l, e));
        assert(rounds_val(r, f_val(r, k) ^ l, e) == (r, f_val(r, k) ^ l));
    } else {
        assert(ks.push(k)[0] == ks[0]);
        assert(ks.push(k).skip(1) =~= ks.skip(1).push(k));
        assert(rounds_val(l, r, ks.push(k)) == rounds_val(
            r,
            f_val(r, ks[0]) ^ l,
            ks.skip(1).push(k),
        ));
        assert(rounds_val(l, r, ks) == rounds_val(r, f_val(r, ks[0]) ^ l, ks.skip(1)));
        lemma_rounds_snoc(r, f_val(r, ks[0]) ^ l, ks.skip(1), k);
    }
}


/// Gathering through `t1` and then through `t2` is the identity when `t1`
/// sends the position each `t2` entry reads back to where it started.
proof fn lemma_permute_inverse(t1: Seq<u8>, t2: Seq<u8>, d: u64)
    requires
        t1.len() == 64,
        t2.len() == 64,
        table_ok(t1, 64),
        table_ok(t2, 64),
        forall|j: int| 0 <= j < 64 ==> #[trigger] t1[t2[j] - 1] == j + 1,
    ensures
        permute_val(t2, 64, (permute_val(t1, 64, d) as u64)) == d,
{
    lemma2_to64_rest();
    assert(pow2(64) == 0x10000000000000000);
    lemma_permute_bits(t1, 64, d);
    let y_int = permute_val(t1, 64, d);
    let y: u64 = y_int as u64;
    assert(y == y_int);
    lemma_permute_bits(t2, 64, y);
    let z = permute_val(t2, 64, y);
    assert forall|k: nat| k < 64 implies #[trigger] bit_at(z, k) == bit_at(d as int, k) by {
        let j = 63 - k as int;
        assert(bit_at(z, (64 - 1 - j) as nat) == bit_at(y as int, (64 - t2[j]) as nat));
        let p = t2[j] - 1;
        assert(0 <= p < 64);
        assert(bit_at(y as int, (64 - 1 - p) as nat) == bit_at(d as int, (64 - t1[p]) as nat));
        assert(t1[p] == j + 1);
        assert((64 - t2[j]) as nat == (64 - 1 - p) as nat);
        assert((64 - t1[p]) as nat == k);
    }
    lemma_bits_eq(z, d as int, 64);
}

/// Splitting a joined block gives back the halves.
proof fn lemma_combine_split(a: u32, b: u32)
    ensures
        hi32(combine64(a, b)) == a,
        lo32(combine64(a, b)) == b,
{
    assert((((a as u64) << 32u64) | (b as u64)) >> 32u64 == a as u64) by (bit_vector);
    assert((((a as u64) << 32u64) | (b as u64)) & 0xFFFF_FFFF == b as u64) by (bit_vector);
}

/// Joining the halves of a block gives back the block.
proof fn lemma_split_combine(x: u64)
    ensures
        combine64(hi32(x), lo32(x)) == x,
{
    assert((((x >> 32u64) & 0xFFFF_FFFF) << 32u64) | (x & 0xFFFF_FFFF) == x) by (bit_vector);
    assert(((x >> 32u64) as u32) as u64 == (x >> 32u64) & 0xFFFF_FFFF) by (bit_vector);
    assert(((x & 0xFFFF_FFFF) as u32) as u64 == x & 0xFFFF_FFFF) by (bit_vector);
}

/// Feistel inversion: running the rounds again on the swapped outcome, with
/// the subkeys reversed, recovers the swapped starting halves.
proof fn lemma_rounds_invert(l0: u32, r0: u32, ks: Seq<u64>)
    ensures
        rounds_val(rounds_val(l0, r0, ks).1, rounds_val(l0, r0, ks).0, ks.reverse()) == (r0, l0),
    decreases ks.len(),
{
    if ks.len() == 0 {
        assert(ks.reverse() =~= Seq::<u64>::empty());
    } else {
        let ks0 = ks.drop_last();
        let kn = ks.last();
        let ln = rounds_val(l0, r0, ks0).0;
        let rn = rounds_val(l0, r0, ks0).1;
        assert(ks0.push(kn) =~= ks);
        lemma_rounds_snoc(l0, r0, ks0, kn);
        let lf = rounds_val(l0, r0, ks).0;
        let rf = rounds_val(l0, r0, ks).1;
        assert(lf == rn && rf == f_val(rn, kn) ^ ln);
        let rev = ks.reverse();
        assert(rev[0] == kn);
        assert(rev.skip(1) =~= ks0.reverse());
        assert(rounds_val(rf, lf, rev) == rounds_val(lf, f_val(lf, rev[0]) ^ rf, rev.skip(1)));
        let x = f_val(rn, kn);
        assert(x ^ (x ^ ln) == ln) by (bit_vector);
        assert(f_val(lf, rev[0]) ^ rf == ln);
        lemma_rounds_invert(l0, r0, ks0);
        assert(rounds_val(rn, ln, ks0.reverse()) == (r0, l0));
    }
}

/// Block cipher round trip: deciphering an enciphered block with the same
/// key gives back the block, for every key and block.
pub proof fn lemma_block_round_trip(key: u64, p: u64)
    ensures
        decrypt_val(key, encrypt_val(key, p)) == p,
{
    lemma2_to64_rest();
    assert(pow2(64) == 0x10000000000000000);
    let ip = Des::IP_TABLE@;
    let fp = Des::FP_TABLE@;
    assert(table_ok(ip, 64));
    assert(table_ok(fp, 64));
    let ks = subkeys_spec(key);
    let permuted = permute_val(ip, 64, p) as u64;
    let l0 = hi32(permuted);
    let r0 = lo32(permuted);
    let l16 = rounds_val(l0, r0, ks).0;
    let r16 = rounds_val(l0, r0, ks).1;
    let pre = combine64(r16, l16);
    let c = permute_val(fp, 64, pre) as u64;
    assert(c == encrypt_val(key, p));

    // The initial permutation of the ciphertext undoes the final one.
    assert(forall|j: int| 0 <= j < 64 ==> #[trigger] fp[ip[j] - 1] == j + 1);
    assert(forall|j: int| 0 <= j < 64 ==> #[trigger] ip[fp[j] - 1] == j + 1);
    lemma_permute_inverse(fp, ip, pre);
    assert(permute_val(ip, 64, c) == pre);

    // The reversed rounds on the swapped halves give back the first pair.
    lemma_combine_split(r16, l16);
    lemma_rounds_invert(l0, r0, ks);
    assert(rounds_val(hi32(pre), lo32(pre), ks.reverse()) == (r0, l0));

    // Recombining and applying the final permutation undoes the initial
    // permutation of the plaintext.
    lemma_split_combine(permuted);
    assert(combine64(l0, r0) == permuted);
    lemma_permute_inverse(ip, fp, p);
    assert(permute_val(fp, 64, permuted) == p);
}

} // verus!
