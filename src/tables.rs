//! Lookup tables for the table-driven CRC kernels, and the kernels.
//!
//! Row `k` of a slice table holds, for each byte value `b`, the register
//! contribution of `b` followed by `k` zero bytes. Row 0 alone drives the
//! byte-at-a-time kernel; the eight rows together drive the
//! eight-bytes-at-a-time kernel.
use vstd::prelude::*;

use crate::crc::{
    crc32_byte, crc32_fold, lemma_crc32_fold_append, lemma_crc32_fold_xor, lemma_shifts32_add,
    lemma_shifts32_byte, lemma_shifts32_linear, lemma_shifts32_placed, shift32, shifts32,
    REFLECTED_POLY32,
};
use crate::crc::{
    crc64_byte, crc64_fold, lemma_shifts64_add,
    lemma_shifts64_byte, lemma_shifts64_linear, lemma_shifts64_placed, shift64, shifts64,
    REFLECTED_POLY64,
};
use crate::gf::{
    lemma_gf_mul32_xpow, lemma_gf_mul64_xpow, lemma_xor32, lemma_xor64, lemma_xpow32_add,
    lemma_xpow32_byte, lemma_xpow64_add, lemma_xpow64_byte, mul32, mul64, xpow32, xpow64,
};
use vstd::arithmetic::power2::{lemma2_to64, lemma_pow2_unfold, pow2};

verus! {

/// Entry `b` of row `k` of the CRC-32C slice table: the byte `b` followed by
/// `k` zero bytes, from a zero register.
pub open spec fn crc32_table_entry(k: int, b: int) -> u32 {
    shifts32(b as u32, (8 * (k + 1)) as nat)
}

/// The eight rows of 256 entries of a CRC-32C slice table.
pub open spec fn is_crc32_table(t: Seq<Vec<u32>>) -> bool {
    &&& t.len() == 8
    &&& forall|k: int| 0 <= k < 8 ==> (#[trigger] t[k])@.len() == 256
    &&& forall|k: int, b: int|
        0 <= k < 8 && 0 <= b < 256 ==> #[trigger] t[k]@[b] == crc32_table_entry(k, b)
}

/// Each row follows from the previous one by one more zero byte, looked up
/// in row 0.
pub proof fn lemma_crc32_table_recurrence(k: int, b: int)
    requires
        0 <= k < 7,
        0 <= b < 256,
    ensures
        crc32_table_entry(k + 1, b) == (crc32_table_entry(k, b) >> 8u32) ^ crc32_table_entry(
            0,
            (crc32_table_entry(k, b) & 0xFFu32) as int,
        ),
{
    let c = crc32_table_entry(k, b);
    lemma_shifts32_byte(c);
    lemma_shifts32_add(b as u32, (8 * (k + 1)) as nat, 8);
    assert((8 * (k + 1)) as nat + 8 == (8 * (k + 2)) as nat);
    lemma_table_index32(c, 0);
}

proof fn lemma_table_index32(c: u32, b: u8)
    by (bit_vector)
    ensures
        (c & 0xFFu32) < 256,
        (c & 0xFFu32) as u32 == c & 0xFFu32,
        ((c as u8) ^ b) as u32 == (c ^ (b as u32)) & 0xFFu32,
        (c ^ (b as u32)) >> 8u32 == c >> 8u32,
        (c >> 24u32) < 256,
        ((c >> 16u32) & 0xFFu32) < 256,
        ((c >> 8u32) & 0xFFu32) < 256,
{
}

proof fn lemma_step32_bits(c: u32, mask: u32)
    by (bit_vector)
    ensures
        c & 1u32 <= 1,
        mask == (if c & 1u32 == 0 { 0u32 } else { 0xFFFF_FFFFu32 }) ==> (c >> 1u32) ^ (mask
            & REFLECTED_POLY32) == shift32(c),
{
}

/// Row 0 of the CRC-32C slice table, eight register steps per entry.
pub fn crc32_row0() -> (t: Vec<u32>)
    ensures
        t@.len() == 256,
        forall|b: int| 0 <= b < 256 ==> #[trigger] t@[b] == crc32_table_entry(0, b),
{
    let mut t: Vec<u32> = Vec::new();
    let mut b: u32 = 0;
    while b < 256
        invariant
            b <= 256,
            t@.len() == b,
            forall|i: int| 0 <= i < b ==> #[trigger] t@[i] == crc32_table_entry(0, i),
        decreases 256 - b,
    {
        let mut crc: u32 = b;
        let mut s: u32 = 0;
        while s < 8
            invariant
                s <= 8,
                crc == shifts32(b, s as nat),
            decreases 8 - s,
        {
            proof {
                lemma_step32_bits(crc, 0);
            }
            let mask = 0u32.wrapping_sub(crc & 1);
            proof {
                lemma_step32_bits(crc, mask);
            }
            crc = (crc >> 1) ^ (mask & REFLECTED_POLY32);
            s = s + 1;
        }
        t.push(crc);
        b = b + 1;
    }
    t
}

/// Builds the CRC-32C slice table: row 0 by register steps, each further
/// row from the one before by the recurrence.
pub fn crc32_slices() -> (t: Vec<Vec<u32>>)
    ensures
        is_crc32_table(t@),
{
    let row0 = crc32_row0();
    let mut t: Vec<Vec<u32>> = Vec::new();
    t.push(row0.clone());
    let mut k: usize = 1;
    while k < 8
        invariant
            1 <= k <= 8,
            t@.len() == k,
            row0@.len() == 256,
            forall|b: int| 0 <= b < 256 ==> #[trigger] row0@[b] == crc32_table_entry(0, b),
            forall|j: int| 0 <= j < k ==> (#[trigger] t@[j])@.len() == 256,
            forall|j: int, b: int|
                0 <= j < k && 0 <= b < 256 ==> #[trigger] t@[j]@[b] == crc32_table_entry(j, b),
        decreases 8 - k,
    {
        let mut row: Vec<u32> = Vec::new();
        let mut b: usize = 0;
        while b < 256
            invariant
                1 <= k < 8,
                t@.len() == k,
                b <= 256,
                row@.len() == b,
                row0@.len() == 256,
                forall|i: int| 0 <= i < 256 ==> #[trigger] row0@[i] == crc32_table_entry(0, i),
                forall|j: int| 0 <= j < k ==> (#[trigger] t@[j])@.len() == 256,
                forall|j: int, i: int|
                    0 <= j < k && 0 <= i < 256 ==> #[trigger] t@[j]@[i] == crc32_table_entry(j, i),
                forall|i: int| 0 <= i < b ==> #[trigger] row@[i] == crc32_table_entry(k as int, i),
            decreases 256 - b,
        {
            let prev = t[k - 1][b];
            proof {
                lemma_table_index32(prev, 0);
                lemma_crc32_table_recurrence(k - 1, b as int);
            }
            row.push((prev >> 8) ^ row0[(prev & 0xFF) as usize]);
            b = b + 1;
        }
        t.push(row);
        k = k + 1;
    }
    t
}

/// Row 0 of a CRC-32C slice table.
pub open spec fn is_crc32_row0(t: Seq<u32>) -> bool {
    &&& t.len() == 256
    &&& forall|b: int| 0 <= b < 256 ==> #[trigger] t[b] == crc32_table_entry(0, b)
}

/// Advances the inverted CRC-32C register by one byte.
pub fn update_inverted_crc32(row0: &Vec<u32>, inverted_crc: u32, byte: u8) -> (r: u32)
    requires
        is_crc32_row0(row0@),
    ensures
        r == crc32_byte(inverted_crc, byte),
{
    let r = row0[((inverted_crc as u8) ^ byte) as usize] ^ (inverted_crc >> 8);
    proof {
        let c = inverted_crc ^ (byte as u32);
        lemma_table_index32(inverted_crc, byte);
        lemma_shifts32_byte(c);
        lemma_xor32(inverted_crc >> 8u32, shifts32(c & 0xFFu32, 8), 0, 0);
    }
    r
}

/// The four bytes of `s` from `pos` on, as a little-endian integer.
pub open spec fn le32_at(s: Seq<u8>, pos: int) -> u32 {
    (s[pos] as u32) | ((s[pos + 1] as u32) << 8u32) | ((s[pos + 2] as u32) << 16u32) | ((
    s[pos + 3] as u32) << 24u32)
}

proof fn lemma_le32_bits(x0: u32, x1: u32, x2: u32, x3: u32, a: u32, v: u32)
    by (bit_vector)
    ensures
        x0 << 0u32 == x0,
        x0 < 256 && x1 < 256 && x2 < 256 && x3 < 256 ==> (((a ^ x0) ^ (x1 << 8u32)) ^ (x2
            << 16u32)) ^ (x3 << 24u32) == a ^ (x0 | (x1 << 8u32) | (x2 << 16u32) | (x3 << 24u32)),
        x0 < 256 && x1 < 256 && x2 < 256 && x3 < 256 && v == (x0 | (x1 << 8u32) | (x2 << 16u32)
            | (x3 << 24u32)) ==> v & 0xFFu32 == x0 && (v >> 8u32) & 0xFFu32 == x1 && (v >> 16u32)
            & 0xFFu32 == x2 && v >> 24u32 == x3,
        v == (((v & 0xFFu32) ^ (((v >> 8u32) & 0xFFu32) << 8u32)) ^ (((v >> 16u32) & 0xFFu32)
            << 16u32)) ^ ((v >> 24u32) << 24u32),
        v & 0xFFu32 < 256,
        (v >> 8u32) & 0xFFu32 < 256,
        (v >> 16u32) & 0xFFu32 < 256,
        v >> 24u32 < 256,
{
}

/// One byte after a register that is `8 * m` steps on from `a`.
proof fn lemma_shifts32_step(a: u32, x: u32, m: nat)
    requires
        x < 256,
        m <= 3,
    ensures
        shifts32(shifts32(a, 8 * m) ^ x, 8) == shifts32(a ^ (x << ((8 * m) as u32)), 8 * m + 8),
{
    let k = (8 * m) as u32;
    lemma_shifts32_add(a ^ (x << k), 8 * m, 8);
    lemma_shifts32_linear(a, x << k, 8 * m);
    lemma_shifts32_placed(x, k, 0);
}

/// `n + 24` register steps over a word, byte by byte.
proof fn lemma_shifts32_word(v: u32, n: nat)
    ensures
        shifts32(v, n + 24) == ((shifts32(v & 0xFFu32, n + 24) ^ shifts32(
            (v >> 8u32) & 0xFFu32,
            n + 16,
        )) ^ shifts32((v >> 16u32) & 0xFFu32, n + 8)) ^ shifts32(v >> 24u32, n),
{
    let b0 = v & 0xFFu32;
    let b1 = (v >> 8u32) & 0xFFu32;
    let b2 = (v >> 16u32) & 0xFFu32;
    let b3 = v >> 24u32;
    lemma_le32_bits(0, 0, 0, 0, 0, v);
    lemma_shifts32_linear(b0 ^ (b1 << 8u32) ^ (b2 << 16u32), b3 << 24u32, n + 24);
    lemma_shifts32_linear(b0 ^ (b1 << 8u32), b2 << 16u32, n + 24);
    lemma_shifts32_linear(b0, b1 << 8u32, n + 24);
    lemma_shifts32_placed(b1, 8, n + 16);
    lemma_shifts32_placed(b2, 16, n + 8);
    lemma_shifts32_placed(b3, 24, n);
}

proof fn lemma_crc32_fold_prefix(c: u32, w: Seq<u8>, i: int)
    requires
        0 <= i < w.len(),
    ensures
        crc32_fold(c, w.subrange(0, i + 1)) == crc32_byte(crc32_fold(c, w.subrange(0, i)), w[i]),
{
    assert(w.subrange(0, i + 1).drop_last() =~= w.subrange(0, i));
}

/// Four bytes fold into the register as one little-endian word.
proof fn lemma_crc32_fold4(a: u32, s: Seq<u8>, pos: int)
    requires
        0 <= pos,
        pos + 4 <= s.len(),
    ensures
        crc32_fold(a, s.subrange(pos, pos + 4)) == shifts32(a ^ le32_at(s, pos), 32),
{
    let x0 = s[pos] as u32;
    let x1 = s[pos + 1] as u32;
    let x2 = s[pos + 2] as u32;
    let x3 = s[pos + 3] as u32;
    let w = s.subrange(pos, pos + 4);
    assert(w.subrange(0, 0).len() == 0);
    lemma_crc32_fold_prefix(a, w, 0);
    lemma_crc32_fold_prefix(a, w, 1);
    lemma_crc32_fold_prefix(a, w, 2);
    lemma_crc32_fold_prefix(a, w, 3);
    assert(w.subrange(0, 4) =~= w);
    lemma_le32_bits(x0, x1, x2, x3, a, 0);
    assert(shifts32(a, 0) == a);
    lemma_shifts32_step(a, x0, 0);
    let a1 = a ^ x0;
    lemma_shifts32_step(a1, x1, 1);
    let a2 = a1 ^ (x1 << 8u32);
    lemma_shifts32_step(a2, x2, 2);
    let a3 = a2 ^ (x2 << 16u32);
    lemma_shifts32_step(a3, x3, 3);
}

/// Advances the inverted CRC-32C register by the eight bytes of `data` from
/// `pos` on, with one lookup per byte in the eight rows of the slice table.
pub fn update_inverted_crc32_8bytes(
    t: &Vec<Vec<u32>>,
    inverted_crc: u32,
    data: &[u8],
    pos: usize,
) -> (r: u32)
    requires
        is_crc32_table(t@),
        pos + 8 <= data@.len(),
    ensures
        r == crc32_fold(inverted_crc, data@.subrange(pos as int, pos + 8)),
{
    let c = inverted_crc ^ ((data[pos] as u32) | ((data[pos + 1] as u32) << 8) | ((data[pos
        + 2] as u32) << 16) | ((data[pos + 3] as u32) << 24));
    proof {
        lemma_le32_bits(0, 0, 0, 0, 0, c);
    }
    let high = ((t[7][(c & 0xFF) as usize] ^ t[6][((c >> 8) & 0xFF) as usize]) ^ t[5][((c >> 16)
        & 0xFF) as usize]) ^ t[4][(c >> 24) as usize];
    let low = ((t[3][data[pos + 4] as usize] ^ t[2][data[pos + 5] as usize]) ^ t[1][data[pos
        + 6] as usize]) ^ t[0][data[pos + 7] as usize];
    proof {
        let s = data@;
        let p = pos as int;
        let e = s.subrange(p + 4, p + 8);
        assert(s.subrange(p, p + 8) =~= s.subrange(p, p + 4) + e);
        lemma_crc32_fold_append(inverted_crc, s.subrange(p, p + 4), e);
        lemma_crc32_fold4(inverted_crc, s, p);
        let x = shifts32(c, 32);
        lemma_xor32(x, 0, 0, 0);
        lemma_crc32_fold_xor(0, x, e);
        lemma_shifts32_add(c, 32, 32);
        lemma_shifts32_word(c, 40);
        lemma_crc32_fold4(0, s, p + 4);
        let w = le32_at(s, p + 4);
        lemma_le32_bits(
            s[p + 4] as u32,
            s[p + 5] as u32,
            s[p + 6] as u32,
            s[p + 7] as u32,
            0,
            w,
        );
        lemma_xor32(w, 0, 0, 0);
        lemma_shifts32_word(w, 8);
        lemma_xor32(low, high, 0, 0);
    }
    high ^ low
}

/// Entry `b` of row `k` of the CRC-64/XZ slice table: the byte `b` followed by
/// `k` zero bytes, from a zero register.
pub open spec fn crc64_table_entry(k: int, b: int) -> u64 {
    shifts64(b as u64, (8 * (k + 1)) as nat)
}

/// The eight rows of 256 entries of a CRC-64/XZ slice table.
pub open spec fn is_crc64_table(t: Seq<Vec<u64>>) -> bool {
    &&& t.len() == 8
    &&& forall|k: int| 0 <= k < 8 ==> (#[trigger] t[k])@.len() == 256
    &&& forall|k: int, b: int|
        0 <= k < 8 && 0 <= b < 256 ==> #[trigger] t[k]@[b] == crc64_table_entry(k, b)
}

/// Each row follows from the previous one by one more zero byte, looked up
/// in row 0.
pub proof fn lemma_crc64_table_recurrence(k: int, b: int)
    requires
        0 <= k < 7,
        0 <= b < 256,
    ensures
        crc64_table_entry(k + 1, b) == (crc64_table_entry(k, b) >> 8u64) ^ crc64_table_entry(
            0,
            (crc64_table_entry(k, b) & 0xFFu64) as int,
        ),
{
    let c = crc64_table_entry(k, b);
    lemma_shifts64_byte(c);
    lemma_shifts64_add(b as u64, (8 * (k + 1)) as nat, 8);
    assert((8 * (k + 1)) as nat + 8 == (8 * (k + 2)) as nat);
    lemma_table_index64(c, 0);
}

proof fn lemma_table_index64(c: u64, b: u8)
    by (bit_vector)
    ensures
        (c & 0xFFu64) < 256,
        (c & 0xFFu64) as u64 == c & 0xFFu64,
        ((c as u8) ^ b) as u64 == (c ^ (b as u64)) & 0xFFu64,
        (c ^ (b as u64)) >> 8u64 == c >> 8u64,
{
}

proof fn lemma_step64_bits(c: u64, mask: u64)
    by (bit_vector)
    ensures
        c & 1u64 <= 1,
        mask == (if c & 1u64 == 0 { 0u64 } else { 0xFFFF_FFFF_FFFF_FFFFu64 }) ==> (c >> 1u64) ^ (mask
            & REFLECTED_POLY64) == shift64(c),
{
}

/// Row 0 of the CRC-64/XZ slice table, eight register steps per entry.
pub fn crc64_row0() -> (t: Vec<u64>)
    ensures
        t@.len() == 256,
        forall|b: int| 0 <= b < 256 ==> #[trigger] t@[b] == crc64_table_entry(0, b),
{
    let mut t: Vec<u64> = Vec::new();
    let mut b: u64 = 0;
    while b < 256
        invariant
            b <= 256,
            t@.len() == b,
            forall|i: int| 0 <= i < b ==> #[trigger] t@[i] == crc64_table_entry(0, i),
        decreases 256 - b,
    {
        let mut crc: u64 = b;
        let mut s: u64 = 0;
        while s < 8
            invariant
                s <= 8,
                crc == shifts64(b, s as nat),
            decreases 8 - s,
        {
            proof {
                lemma_step64_bits(crc, 0);
            }
            let mask = 0u64.wrapping_sub(crc & 1);
            proof {
                lemma_step64_bits(crc, mask);
            }
            crc = (crc >> 1) ^ (mask & REFLECTED_POLY64);
            s = s + 1;
        }
        t.push(crc);
        b = b + 1;
    }
    t
}

/// Builds the CRC-64/XZ slice table: row 0 by register steps, each further
/// row from the one before by the recurrence.
pub fn crc64_slices() -> (t: Vec<Vec<u64>>)
    ensures
        is_crc64_table(t@),
{
    let row0 = crc64_row0();
    let mut t: Vec<Vec<u64>> = Vec::new();
    t.push(row0.clone());
    let mut k: usize = 1;
    while k < 8
        invariant
            1 <= k <= 8,
            t@.len() == k,
            row0@.len() == 256,
            forall|b: int| 0 <= b < 256 ==> #[trigger] row0@[b] == crc64_table_entry(0, b),
            forall|j: int| 0 <= j < k ==> (#[trigger] t@[j])@.len() == 256,
            forall|j: int, b: int|
                0 <= j < k && 0 <= b < 256 ==> #[trigger] t@[j]@[b] == crc64_table_entry(j, b),
        decreases 8 - k,
    {
        let mut row: Vec<u64> = Vec::new();
        let mut b: usize = 0;
        while b < 256
            invariant
                1 <= k < 8,
                t@.len() == k,
                b <= 256,
                row@.len() == b,
                row0@.len() == 256,
                forall|i: int| 0 <= i < 256 ==> #[trigger] row0@[i] == crc64_table_entry(0, i),
                forall|j: int| 0 <= j < k ==> (#[trigger] t@[j])@.len() == 256,
                forall|j: int, i: int|
                    0 <= j < k && 0 <= i < 256 ==> #[trigger] t@[j]@[i] == crc64_table_entry(j, i),
                forall|i: int| 0 <= i < b ==> #[trigger] row@[i] == crc64_table_entry(k as int, i),
            decreases 256 - b,
        {
            let prev = t[k - 1][b];
            proof {
                lemma_table_index64(prev, 0);
                lemma_crc64_table_recurrence(k - 1, b as int);
            }
            row.push((prev >> 8) ^ row0[(prev & 0xFF) as usize]);
            b = b + 1;
        }
        t.push(row);
        k = k + 1;
    }
    t
}

/// Row 0 of a CRC-64/XZ slice table.
pub open spec fn is_crc64_row0(t: Seq<u64>) -> bool {
    &&& t.len() == 256
    &&& forall|b: int| 0 <= b < 256 ==> #[trigger] t[b] == crc64_table_entry(0, b)
}

/// Advances the inverted CRC-64/XZ register by one byte.
pub fn update_inverted_crc64(row0: &Vec<u64>, inverted_crc: u64, byte: u8) -> (r: u64)
    requires
        is_crc64_row0(row0@),
    ensures
        r == crc64_byte(inverted_crc, byte),
{
    let r = row0[((inverted_crc as u8) ^ byte) as usize] ^ (inverted_crc >> 8);
    proof {
        let c = inverted_crc ^ (byte as u64);
        lemma_table_index64(inverted_crc, byte);
        lemma_shifts64_byte(c);
        lemma_xor64(inverted_crc >> 8u64, shifts64(c & 0xFFu64, 8), 0, 0);
    }
    r
}

/// The eight bytes of `s` from `pos` on, as a little-endian integer.
pub open spec fn le64_at(s: Seq<u8>, pos: int) -> u64 {
    (s[pos] as u64) | ((s[pos + 1] as u64) << 8u64) | ((s[pos + 2] as u64) << 16u64) | ((
    s[pos + 3] as u64) << 24u64) | ((s[pos + 4] as u64) << 32u64) | ((s[pos + 5] as u64)
        << 40u64) | ((s[pos + 6] as u64) << 48u64) | ((s[pos + 7] as u64) << 56u64)
}

/// Byte `j` of `v`.
pub open spec fn byte64(v: u64, j: u64) -> u64 {
    (v >> (8 * j)) & 0xFFu64
}

proof fn lemma_le64_bits(
    x0: u64,
    x1: u64,
    x2: u64,
    x3: u64,
    x4: u64,
    x5: u64,
    x6: u64,
    x7: u64,
    a: u64,
    v: u64,
)
    by (bit_vector)
    ensures
        x0 << 0u64 == x0,
        x0 < 256 && x1 < 256 && x2 < 256 && x3 < 256 && x4 < 256 && x5 < 256 && x6 < 256 && x7
            < 256 ==> (((((((a ^ x0) ^ (x1 << 8u64)) ^ (x2 << 16u64)) ^ (x3 << 24u64)) ^ (x4
            << 32u64)) ^ (x5 << 40u64)) ^ (x6 << 48u64)) ^ (x7 << 56u64) == a ^ (x0 | (x1
            << 8u64) | (x2 << 16u64) | (x3 << 24u64) | (x4 << 32u64) | (x5 << 40u64) | (x6
            << 48u64) | (x7 << 56u64)),
        v == (((((((byte64(v, 0) ^ (byte64(v, 1) << 8u64)) ^ (byte64(v, 2) << 16u64)) ^ (
        byte64(v, 3) << 24u64)) ^ (byte64(v, 4) << 32u64)) ^ (byte64(v, 5) << 40u64)) ^ (
        byte64(v, 6) << 48u64)) ^ (byte64(v, 7) << 56u64)),
        byte64(v, 0) < 256 && byte64(v, 1) < 256 && byte64(v, 2) < 256 && byte64(v, 3) < 256
            && byte64(v, 4) < 256 && byte64(v, 5) < 256 && byte64(v, 6) < 256 && byte64(v, 7)
            < 256,
        byte64(v, 0) == v & 0xFFu64,
        byte64(v, 7) == v >> 56u64,
{
}

/// One byte after a register that is `8 * m` steps on from `a`.
proof fn lemma_shifts64_step(a: u64, x: u64, m: nat)
    requires
        x < 256,
        m <= 7,
    ensures
        shifts64(shifts64(a, 8 * m) ^ x, 8) == shifts64(a ^ (x << ((8 * m) as u64)), 8 * m + 8),
{
    let k = (8 * m) as u64;
    lemma_shifts64_add(a ^ (x << k), 8 * m, 8);
    lemma_shifts64_linear(a, x << k, 8 * m);
    lemma_shifts64_placed(x, k, 0);
}

/// `n + 56` register steps over a word, byte by byte.
proof fn lemma_shifts64_word(v: u64, n: nat)
    ensures
        shifts64(v, n + 56) == (((((((shifts64(byte64(v, 0), n + 56) ^ shifts64(
            byte64(v, 1),
            n + 48,
        )) ^ shifts64(byte64(v, 2), n + 40)) ^ shifts64(byte64(v, 3), n + 32)) ^ shifts64(
            byte64(v, 4),
            n + 24,
        )) ^ shifts64(byte64(v, 5), n + 16)) ^ shifts64(byte64(v, 6), n + 8)) ^ shifts64(
            byte64(v, 7),
            n,
        )),
{
    let b0 = byte64(v, 0);
    let b1 = byte64(v, 1);
    let b2 = byte64(v, 2);
    let b3 = byte64(v, 3);
    let b4 = byte64(v, 4);
    let b5 = byte64(v, 5);
    let b6 = byte64(v, 6);
    let b7 = byte64(v, 7);
    lemma_le64_bits(0, 0, 0, 0, 0, 0, 0, 0, 0, v);
    let s1 = b0 ^ (b1 << 8u64);
    let s2 = s1 ^ (b2 << 16u64);
    let s3 = s2 ^ (b3 << 24u64);
    let s4 = s3 ^ (b4 << 32u64);
    let s5 = s4 ^ (b5 << 40u64);
    let s6 = s5 ^ (b6 << 48u64);
    let m = n + 56;
    lemma_shifts64_linear(s6, b7 << 56u64, m);
    lemma_shifts64_linear(s5, b6 << 48u64, m);
    lemma_shifts64_linear(s4, b5 << 40u64, m);
    lemma_shifts64_linear(s3, b4 << 32u64, m);
    lemma_shifts64_linear(s2, b3 << 24u64, m);
    lemma_shifts64_linear(s1, b2 << 16u64, m);
    lemma_shifts64_linear(b0, b1 << 8u64, m);
    lemma_shifts64_placed(b1, 8, n + 48);
    lemma_shifts64_placed(b2, 16, n + 40);
    lemma_shifts64_placed(b3, 24, n + 32);
    lemma_shifts64_placed(b4, 32, n + 24);
    lemma_shifts64_placed(b5, 40, n + 16);
    lemma_shifts64_placed(b6, 48, n + 8);
    lemma_shifts64_placed(b7, 56, n);
}

proof fn lemma_crc64_fold_prefix(c: u64, w: Seq<u8>, i: int)
    requires
        0 <= i < w.len(),
    ensures
        crc64_fold(c, w.subrange(0, i + 1)) == crc64_byte(crc64_fold(c, w.subrange(0, i)), w[i]),
{
    assert(w.subrange(0, i + 1).drop_last() =~= w.subrange(0, i));
}

/// Eight bytes fold into the register as one little-endian word.
proof fn lemma_crc64_fold8(a: u64, s: Seq<u8>, pos: int)
    requires
        0 <= pos,
        pos + 8 <= s.len(),
    ensures
        crc64_fold(a, s.subrange(pos, pos + 8)) == shifts64(a ^ le64_at(s, pos), 64),
{
    let x0 = s[pos] as u64;
    let x1 = s[pos + 1] as u64;
    let x2 = s[pos + 2] as u64;
    let x3 = s[pos + 3] as u64;
    let x4 = s[pos + 4] as u64;
    let x5 = s[pos + 5] as u64;
    let x6 = s[pos + 6] as u64;
    let x7 = s[pos + 7] as u64;
    let w = s.subrange(pos, pos + 8);
    assert(w.subrange(0, 0).len() == 0);
    lemma_crc64_fold_prefix(a, w, 0);
    lemma_crc64_fold_prefix(a, w, 1);
    lemma_crc64_fold_prefix(a, w, 2);
    lemma_crc64_fold_prefix(a, w, 3);
    lemma_crc64_fold_prefix(a, w, 4);
    lemma_crc64_fold_prefix(a, w, 5);
    lemma_crc64_fold_prefix(a, w, 6);
    lemma_crc64_fold_prefix(a, w, 7);
    assert(w.subrange(0, 8) =~= w);
    lemma_le64_bits(x0, x1, x2, x3, x4, x5, x6, x7, a, 0);
    assert(shifts64(a, 0) == a);
    lemma_shifts64_step(a, x0, 0);
    let a1 = a ^ x0;
    lemma_shifts64_step(a1, x1, 1);
    let a2 = a1 ^ (x1 << 8u64);
    lemma_shifts64_step(a2, x2, 2);
    let a3 = a2 ^ (x2 << 16u64);
    lemma_shifts64_step(a3, x3, 3);
    let a4 = a3 ^ (x3 << 24u64);
    lemma_shifts64_step(a4, x4, 4);
    let a5 = a4 ^ (x4 << 32u64);
    lemma_shifts64_step(a5, x5, 5);
    let a6 = a5 ^ (x5 << 40u64);
    lemma_shifts64_step(a6, x6, 6);
    let a7 = a6 ^ (x6 << 48u64);
    lemma_shifts64_step(a7, x7, 7);
}

/// Advances the inverted CRC-64/XZ register by the eight bytes of `data`
/// from `pos` on, with one lookup per byte in the eight rows of the slice
/// table.
pub fn update_inverted_crc64_8bytes(
    t: &Vec<Vec<u64>>,
    inverted_crc: u64,
    data: &[u8],
    pos: usize,
) -> (r: u64)
    requires
        is_crc64_table(t@),
        pos + 8 <= data@.len(),
    ensures
        r == crc64_fold(inverted_crc, data@.subrange(pos as int, pos + 8)),
{
    let c = inverted_crc ^ ((data[pos] as u64) | ((data[pos + 1] as u64) << 8) | ((data[pos
        + 2] as u64) << 16) | ((data[pos + 3] as u64) << 24) | ((data[pos + 4] as u64) << 32)
        | ((data[pos + 5] as u64) << 40) | ((data[pos + 6] as u64) << 48) | ((data[pos + 7] as u64)
        << 56));
    proof {
        lemma_le64_bits(0, 0, 0, 0, 0, 0, 0, 0, 0, c);
    }
    let r = ((((((t[7][(c & 0xFF) as usize] ^ t[6][((c >> 8) & 0xFF) as usize]) ^ t[5][((c
        >> 16) & 0xFF) as usize]) ^ t[4][((c >> 24) & 0xFF) as usize]) ^ t[3][((c >> 32) & 0xFF)
        as usize]) ^ t[2][((c >> 40) & 0xFF) as usize]) ^ t[1][((c >> 48) & 0xFF) as usize])
        ^ t[0][(c >> 56) as usize];
    proof {
        lemma_crc64_fold8(inverted_crc, data@, pos as int);
        lemma_shifts64_word(c, 8);
    }
    r
}

/// The powers `256^(2^k)`, `k < 64`, in the CRC-32C field.
pub open spec fn is_pow256_32_table(t: Seq<u32>) -> bool {
    &&& t.len() == 64
    &&& forall|k: int| 0 <= k < 64 ==> #[trigger] t[k] == xpow32(1, 8 * pow2(k as nat))
}

/// Builds the powers `256^(2^k)` in the CRC-32C field by repeated squaring.
pub fn pow256_32_table() -> (t: Vec<u32>)
    ensures
        is_pow256_32_table(t@),
{
    let mut t: Vec<u32> = Vec::new();
    proof {
        lemma_xpow32_byte();
        lemma2_to64();
    }
    t.push(256);
    let mut k: usize = 1;
    while k < 64
        invariant
            1 <= k <= 64,
            t@.len() == k,
            forall|j: int| 0 <= j < k ==> #[trigger] t@[j] == xpow32(1, 8 * pow2(j as nat)),
        decreases 64 - k,
    {
        let prev = t[k - 1];
        let next = mul32(prev, prev);
        proof {
            let m = 8 * pow2((k - 1) as nat);
            lemma_gf_mul32_xpow(prev, m);
            lemma_xpow32_add(1, m, m);
            lemma_pow2_unfold(k as nat);
        }
        t.push(next);
        k = k + 1;
    }
    t
}

/// The powers `256^(2^k)`, `k < 64`, in the CRC-64/XZ field.
pub open spec fn is_pow256_64_table(t: Seq<u64>) -> bool {
    &&& t.len() == 64
    &&& forall|k: int| 0 <= k < 64 ==> #[trigger] t[k] == xpow64(1, 8 * pow2(k as nat))
}

/// Builds the powers `256^(2^k)` in the CRC-64/XZ field by repeated squaring.
pub fn pow256_64_table() -> (t: Vec<u64>)
    ensures
        is_pow256_64_table(t@),
{
    let mut t: Vec<u64> = Vec::new();
    proof {
        lemma_xpow64_byte();
        lemma2_to64();
    }
    t.push(256);
    let mut k: usize = 1;
    while k < 64
        invariant
            1 <= k <= 64,
            t@.len() == k,
            forall|j: int| 0 <= j < k ==> #[trigger] t@[j] == xpow64(1, 8 * pow2(j as nat)),
        decreases 64 - k,
    {
        let prev = t[k - 1];
        let next = mul64(prev, prev);
        proof {
            let m = 8 * pow2((k - 1) as nat);
            lemma_gf_mul64_xpow(prev, m);
            lemma_xpow64_add(1, m, m);
            lemma_pow2_unfold(k as nat);
        }
        t.push(next);
        k = k + 1;
    }
    t
}

} // verus!
