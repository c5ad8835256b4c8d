//! The two CRC registers as a mathematical model. Both CRCs are kept in the
//! reflected bit order and inverted: a register starts at all ones, each
//! byte is XORed into its low end and followed by eight reflected shifts,
//! and the checksum is the register's complement.
use vstd::prelude::*;

use crate::gf::{bit32, bit64, lemma_xor32, lemma_xor64, xmul32, xmul64, xpow32, xpow64};

verus! {

/// CRC-32C's generator polynomial in reflected bit order.
pub const REFLECTED_POLY32: u32 = 0x82F63B78;

/// One step of the reflected CRC-32C register: multiplication by `x` when
/// bit 31 holds the coefficient of `x^0`.
pub open spec fn shift32(c: u32) -> u32 {
    (c >> 1u32) ^ (if c & 1u32 == 1u32 { REFLECTED_POLY32 } else { 0u32 })
}

/// `n` steps of the reflected CRC-32C register.
pub open spec fn shifts32(c: u32, n: nat) -> u32
    decreases n,
{
    if n == 0 {
        c
    } else {
        shift32(shifts32(c, (n - 1) as nat))
    }
}

/// The inverted CRC-32C register `c` after the byte `b`.
pub open spec fn crc32_byte(c: u32, b: u8) -> u32 {
    shifts32(c ^ (b as u32), 8)
}

/// The inverted CRC-32C register `c` after the bytes of `s`, in order.
pub open spec fn crc32_fold(c: u32, s: Seq<u8>) -> u32
    decreases s.len(),
{
    if s.len() == 0 {
        c
    } else {
        crc32_byte(crc32_fold(c, s.drop_last()), s.last())
    }
}

/// The CRC-32C checksum of `s`.
pub open spec fn crc32c(s: Seq<u8>) -> u32 {
    !crc32_fold(0xFFFF_FFFFu32, s)
}

/// `n` zero bytes.
pub open spec fn zero_bytes(n: nat) -> Seq<u8> {
    Seq::new(n, |i: int| 0u8)
}

/// `x` with the order of its 32 bits reversed.
pub open spec fn reflect32(x: u32) -> u32 {
    let x = ((x >> 1u32) & 0x5555_5555u32) | ((x & 0x5555_5555u32) << 1u32);
    let x = ((x >> 2u32) & 0x3333_3333u32) | ((x & 0x3333_3333u32) << 2u32);
    let x = ((x >> 4u32) & 0x0F0F_0F0Fu32) | ((x & 0x0F0F_0F0Fu32) << 4u32);
    let x = ((x >> 8u32) & 0x00FF_00FFu32) | ((x & 0x00FF_00FFu32) << 8u32);
    (x >> 16u32) | (x << 16u32)
}

proof fn lemma_reflect32_bits(a: u32, b: u32)
    by (bit_vector)
    ensures
        reflect32(reflect32(a)) == a,
        reflect32(a ^ b) == reflect32(a) ^ reflect32(b),
        reflect32(shift32(a)) == xmul32(reflect32(a)),
        shift32(a ^ b) == shift32(a) ^ shift32(b),
        shift32(0) == 0,
{
}

proof fn lemma_reflect32_reverses(x: u32, i: u32)
    by (bit_vector)
    ensures
        i < 32 ==> bit32(reflect32(x), i) == bit32(x, (31 - i) as u32),
{
}

/// Reverses the order of the 32 bits of `x`.
pub fn reflect_u32(v: u32) -> (r: u32)
    ensures
        r == reflect32(v),
        forall|i: u32| i < 32 ==> #[trigger] bit32(r, i) == bit32(v, (31 - i) as u32),
{
    proof {
        assert forall|i: u32| i < 32 implies #[trigger] bit32(reflect32(v), i) == bit32(
            v,
            (31 - i) as u32,
        ) by {
            lemma_reflect32_reverses(v, i);
        }
    }
    let x = ((v >> 1) & 0x5555_5555) | ((v & 0x5555_5555) << 1);
    let x = ((x >> 2) & 0x3333_3333) | ((x & 0x3333_3333) << 2);
    let x = ((x >> 4) & 0x0F0F_0F0F) | ((x & 0x0F0F_0F0F) << 4);
    let x = ((x >> 8) & 0x00FF_00FF) | ((x & 0x00FF_00FF) << 8);
    (x >> 16) | (x << 16)
}

/// Reflecting twice gives back the value.
pub proof fn lemma_reflect32_twice(x: u32)
    ensures
        reflect32(reflect32(x)) == x,
{
    lemma_reflect32_bits(x, 0);
}

/// The register steps distribute over XOR.
pub proof fn lemma_shifts32_linear(a: u32, b: u32, n: nat)
    ensures
        shifts32(a ^ b, n) == shifts32(a, n) ^ shifts32(b, n),
        shifts32(0, n) == 0,
    decreases n,
{
    lemma_reflect32_bits(a, b);
    if n > 0 {
        lemma_shifts32_linear(a, b, (n - 1) as nat);
        lemma_reflect32_bits(shifts32(a, (n - 1) as nat), shifts32(b, (n - 1) as nat));
    }
}

/// Register steps add up.
pub proof fn lemma_shifts32_add(c: u32, m: nat, n: nat)
    ensures
        shifts32(shifts32(c, m), n) == shifts32(c, m + n),
    decreases n,
{
    if n > 0 {
        lemma_shifts32_add(c, m, (n - 1) as nat);
        assert(shifts32(c, m + n) == shift32(shifts32(c, (m + n - 1) as nat)));
    }
}

/// Reflection turns the reflected register steps into multiplications by `x`.
pub proof fn lemma_reflect32_shifts(c: u32, n: nat)
    ensures
        reflect32(shifts32(c, n)) == xpow32(reflect32(c), n),
    decreases n,
{
    if n > 0 {
        lemma_reflect32_shifts(c, (n - 1) as nat);
        lemma_reflect32_bits(shifts32(c, (n - 1) as nat), 0);
    }
}

proof fn lemma_clear32_bits(c: u32, y: u32, k: u32)
    by (bit_vector)
    ensures
        c & 1u32 == 0 ==> shift32(c) == c >> 1u32,
        k < 32 && c & !(0xFFFF_FFFFu32 << ((k + 1) as u32)) == 0 ==> c & 1u32 == 0 && (c
            >> 1u32) & !(0xFFFF_FFFFu32 << k) == 0 && (c >> 1u32) >> k == c >> ((k + 1) as u32),
        c & !(0xFFFF_FFFFu32 << 0u32) == 0,
        c >> 0u32 == c,
        (c & 0xFFu32) ^ (c & 0xFFFF_FF00u32) == c,
        (c & 0xFFFF_FF00u32) & !(0xFFFF_FFFFu32 << 8u32) == 0,
        (c & 0xFFFF_FF00u32) >> 8u32 == c >> 8u32,
        y < 256 && k <= 24 ==> (y << k) & !(0xFFFF_FFFFu32 << k) == 0 && (y << k) >> k == y,
{
}

/// Steps over low bits that are clear only shift the register.
proof fn lemma_shifts32_clear(c: u32, k: nat)
    requires
        k <= 32,
        c & !(0xFFFF_FFFFu32 << (k as u32)) == 0,
    ensures
        shifts32(c, k) == c >> (k as u32),
    decreases k,
{
    lemma_clear32_bits(c, 0, 0);
    if k > 0 {
        lemma_clear32_bits(c, 0, (k - 1) as u32);
        lemma_shifts32_clear(c >> 1u32, (k - 1) as nat);
        lemma_shifts32_add(c, 1, (k - 1) as nat);
        assert(shifts32(c, 0) == c);
        assert(shifts32(c, 1) == shift32(c));
    }
}

/// A byte's eight register steps, split into its low byte and the rest.
pub proof fn lemma_shifts32_byte(c: u32)
    ensures
        shifts32(c, 8) == (c >> 8u32) ^ shifts32(c & 0xFFu32, 8),
{
    lemma_clear32_bits(c, 0, 0);
    lemma_shifts32_linear(c & 0xFFu32, c & 0xFFFF_FF00u32, 8);
    lemma_shifts32_clear(c & 0xFFFF_FF00u32, 8);
    lemma_xor32(shifts32(c & 0xFFu32, 8), c >> 8u32, 0, 0);
}

/// A byte placed `k` bits up comes back down in `k` steps.
pub proof fn lemma_shifts32_placed(y: u32, k: u32, n: nat)
    requires
        y < 256,
        k <= 24,
    ensures
        shifts32(y << k, k as nat + n) == shifts32(y, n),
{
    lemma_clear32_bits(0, y, k);
    lemma_shifts32_clear(y << k, k as nat);
    lemma_shifts32_add(y << k, k as nat, n);
}

/// Folding a concatenation folds its parts in turn.
pub proof fn lemma_crc32_fold_append(c: u32, a: Seq<u8>, b: Seq<u8>)
    ensures
        crc32_fold(c, a + b) == crc32_fold(crc32_fold(c, a), b),
    decreases b.len(),
{
    if b.len() == 0 {
        assert(a + b =~= a);
    } else {
        lemma_crc32_fold_append(c, a, b.drop_last());
        assert((a + b).drop_last() =~= a + b.drop_last());
        assert((a + b).last() == b.last());
    }
}

/// Zero bytes only step the register.
pub proof fn lemma_crc32_fold_zeros(c: u32, n: nat)
    ensures
        crc32_fold(c, zero_bytes(n)) == shifts32(c, 8 * n),
    decreases n,
{
    if n == 0 {
        assert(zero_bytes(0).len() == 0);
    } else {
        lemma_crc32_fold_zeros(c, (n - 1) as nat);
        assert(zero_bytes(n).drop_last() =~= zero_bytes((n - 1) as nat));
        let f = shifts32(c, 8 * (n - 1) as nat);
        lemma_xor32(f, 0, 0, 0);
        assert(f ^ (0u8 as u32) == f);
        lemma_shifts32_add(c, 8 * (n - 1) as nat, 8);
        assert(8 * (n - 1) as nat + 8 == 8 * n) by (nonlinear_arith)
            requires
                n > 0,
        ;
    }
}

/// The register is linear in its starting value.
pub proof fn lemma_crc32_fold_xor(c: u32, d: u32, s: Seq<u8>)
    ensures
        crc32_fold(c ^ d, s) == crc32_fold(c, s) ^ shifts32(d, 8 * s.len()),
    decreases s.len(),
{
    if s.len() == 0 {
    } else {
        let t = s.drop_last();
        lemma_crc32_fold_xor(c, d, t);
        let f = crc32_fold(c, t);
        let e = shifts32(d, 8 * t.len());
        let x = s.last() as u32;
        lemma_xor32(f, e, x, 0);
        lemma_xor32(e, x, 0, 0);
        lemma_xor32(f, x, e, 0);
        lemma_shifts32_linear(f ^ x, e, 8);
        lemma_shifts32_add(d, 8 * t.len(), 8);
        assert(8 * t.len() + 8 == 8 * s.len());
    }
}

/// CRC-64/XZ's generator polynomial in reflected bit order.
pub const REFLECTED_POLY64: u64 = 0xC96C5795D7870F42;

/// One step of the reflected CRC-64/XZ register: multiplication by `x` when
/// bit 63 holds the coefficient of `x^0`.
pub open spec fn shift64(c: u64) -> u64 {
    (c >> 1u64) ^ (if c & 1u64 == 1u64 { REFLECTED_POLY64 } else { 0u64 })
}

/// `n` steps of the reflected CRC-64/XZ register.
pub open spec fn shifts64(c: u64, n: nat) -> u64
    decreases n,
{
    if n == 0 {
        c
    } else {
        shift64(shifts64(c, (n - 1) as nat))
    }
}

/// The inverted CRC-64/XZ register `c` after the byte `b`.
pub open spec fn crc64_byte(c: u64, b: u8) -> u64 {
    shifts64(c ^ (b as u64), 8)
}

/// The inverted CRC-64/XZ register `c` after the bytes of `s`, in order.
pub open spec fn crc64_fold(c: u64, s: Seq<u8>) -> u64
    decreases s.len(),
{
    if s.len() == 0 {
        c
    } else {
        crc64_byte(crc64_fold(c, s.drop_last()), s.last())
    }
}

/// The CRC-64/XZ checksum of `s`.
pub open spec fn crc64xz(s: Seq<u8>) -> u64 {
    !crc64_fold(0xFFFF_FFFF_FFFF_FFFFu64, s)
}

/// `x` with the order of its 64 bits reversed.
pub open spec fn reflect64(x: u64) -> u64 {
    let x = ((x >> 1u64) & 0x5555_5555_5555_5555u64) | ((x & 0x5555_5555_5555_5555u64) << 1u64);
    let x = ((x >> 2u64) & 0x3333_3333_3333_3333u64) | ((x & 0x3333_3333_3333_3333u64) << 2u64);
    let x = ((x >> 4u64) & 0x0F0F_0F0F_0F0F_0F0Fu64) | ((x & 0x0F0F_0F0F_0F0F_0F0Fu64) << 4u64);
    let x = ((x >> 8u64) & 0x00FF_00FF_00FF_00FFu64) | ((x & 0x00FF_00FF_00FF_00FFu64) << 8u64);
    let x = ((x >> 16u64) & 0x0000_FFFF_0000_FFFFu64) | ((x & 0x0000_FFFF_0000_FFFFu64) << 16u64);
    (x >> 32u64) | (x << 32u64)
}

proof fn lemma_reflect64_bits(a: u64, b: u64)
    by (bit_vector)
    ensures
        reflect64(reflect64(a)) == a,
        reflect64(a ^ b) == reflect64(a) ^ reflect64(b),
        reflect64(shift64(a)) == xmul64(reflect64(a)),
        shift64(a ^ b) == shift64(a) ^ shift64(b),
        shift64(0) == 0,
{
}

proof fn lemma_reflect64_reverses(x: u64, i: u64)
    by (bit_vector)
    ensures
        i < 64 ==> bit64(reflect64(x), i) == bit64(x, (63 - i) as u64),
{
}

/// Reverses the order of the 64 bits of `x`.
pub fn reflect_u64(v: u64) -> (r: u64)
    ensures
        r == reflect64(v),
        forall|i: u64| i < 64 ==> #[trigger] bit64(r, i) == bit64(v, (63 - i) as u64),
{
    proof {
        assert forall|i: u64| i < 64 implies #[trigger] bit64(reflect64(v), i) == bit64(
            v,
            (63 - i) as u64,
        ) by {
            lemma_reflect64_reverses(v, i);
        }
    }
    let x = ((v >> 1) & 0x5555_5555_5555_5555) | ((v & 0x5555_5555_5555_5555) << 1);
    let x = ((x >> 2) & 0x3333_3333_3333_3333) | ((x & 0x3333_3333_3333_3333) << 2);
    let x = ((x >> 4) & 0x0F0F_0F0F_0F0F_0F0F) | ((x & 0x0F0F_0F0F_0F0F_0F0F) << 4);
    let x = ((x >> 8) & 0x00FF_00FF_00FF_00FF) | ((x & 0x00FF_00FF_00FF_00FF) << 8);
    let x = ((x >> 16) & 0x0000_FFFF_0000_FFFF) | ((x & 0x0000_FFFF_0000_FFFF) << 16);
    (x >> 32) | (x << 32)
}

/// Reflecting twice gives back the value.
pub proof fn lemma_reflect64_twice(x: u64)
    ensures
        reflect64(reflect64(x)) == x,
{
    lemma_reflect64_bits(x, 0);
}

/// The register steps distribute over XOR.
pub proof fn lemma_shifts64_linear(a: u64, b: u64, n: nat)
    ensures
        shifts64(a ^ b, n) == shifts64(a, n) ^ shifts64(b, n),
        shifts64(0, n) == 0,
    decreases n,
{
    lemma_reflect64_bits(a, b);
    if n > 0 {
        lemma_shifts64_linear(a, b, (n - 1) as nat);
        lemma_reflect64_bits(shifts64(a, (n - 1) as nat), shifts64(b, (n - 1) as nat));
    }
}

/// Register steps add up.
pub proof fn lemma_shifts64_add(c: u64, m: nat, n: nat)
    ensures
        shifts64(shifts64(c, m), n) == shifts64(c, m + n),
    decreases n,
{
    if n > 0 {
        lemma_shifts64_add(c, m, (n - 1) as nat);
        assert(shifts64(c, m + n) == shift64(shifts64(c, (m + n - 1) as nat)));
    }
}

/// Reflection turns the reflected register steps into multiplications by `x`.
pub proof fn lemma_reflect64_shifts(c: u64, n: nat)
    ensures
        reflect64(shifts64(c, n)) == xpow64(reflect64(c), n),
    decreases n,
{
    if n > 0 {
        lemma_reflect64_shifts(c, (n - 1) as nat);
        lemma_reflect64_bits(shifts64(c, (n - 1) as nat), 0);
    }
}

proof fn lemma_clear64_bits(c: u64, y: u64, k: u64)
    by (bit_vector)
    ensures
        c & 1u64 == 0 ==> shift64(c) == c >> 1u64,
        k < 64 && c & !(0xFFFF_FFFF_FFFF_FFFFu64 << ((k + 1) as u64)) == 0 ==> c & 1u64 == 0 && (c
            >> 1u64) & !(0xFFFF_FFFF_FFFF_FFFFu64 << k) == 0 && (c >> 1u64) >> k == c >> ((k + 1) as u64),
        c & !(0xFFFF_FFFF_FFFF_FFFFu64 << 0u64) == 0,
        c >> 0u64 == c,
        (c & 0xFFu64) ^ (c & 0xFFFF_FFFF_FFFF_FF00u64) == c,
        (c & 0xFFFF_FFFF_FFFF_FF00u64) & !(0xFFFF_FFFF_FFFF_FFFFu64 << 8u64) == 0,
        (c & 0xFFFF_FFFF_FFFF_FF00u64) >> 8u64 == c >> 8u64,
        y < 256 && k <= 56 ==> (y << k) & !(0xFFFF_FFFF_FFFF_FFFFu64 << k) == 0 && (y << k) >> k == y,
{
}

/// Steps over low bits that are clear only shift the register.
proof fn lemma_shifts64_clear(c: u64, k: nat)
    requires
        k <= 64,
        c & !(0xFFFF_FFFF_FFFF_FFFFu64 << (k as u64)) == 0,
    ensures
        shifts64(c, k) == c >> (k as u64),
    decreases k,
{
    lemma_clear64_bits(c, 0, 0);
    if k > 0 {
        lemma_clear64_bits(c, 0, (k - 1) as u64);
        lemma_shifts64_clear(c >> 1u64, (k - 1) as nat);
        lemma_shifts64_add(c, 1, (k - 1) as nat);
        assert(shifts64(c, 0) == c);
        assert(shifts64(c, 1) == shift64(c));
    }
}

/// A byte's eight register steps, split into its low byte and the rest.
pub proof fn lemma_shifts64_byte(c: u64)
    ensures
        shifts64(c, 8) == (c >> 8u64) ^ shifts64(c & 0xFFu64, 8),
{
    lemma_clear64_bits(c, 0, 0);
    lemma_shifts64_linear(c & 0xFFu64, c & 0xFFFF_FFFF_FFFF_FF00u64, 8);
    lemma_shifts64_clear(c & 0xFFFF_FFFF_FFFF_FF00u64, 8);
    lemma_xor64(shifts64(c & 0xFFu64, 8), c >> 8u64, 0, 0);
}

/// A byte placed `k` bits up comes back down in `k` steps.
pub proof fn lemma_shifts64_placed(y: u64, k: u64, n: nat)
    requires
        y < 256,
        k <= 56,
    ensures
        shifts64(y << k, k as nat + n) == shifts64(y, n),
{
    lemma_clear64_bits(0, y, k);
    lemma_shifts64_clear(y << k, k as nat);
    lemma_shifts64_add(y << k, k as nat, n);
}

/// Folding a concatenation folds its parts in turn.
pub proof fn lemma_crc64_fold_append(c: u64, a: Seq<u8>, b: Seq<u8>)
    ensures
        crc64_fold(c, a + b) == crc64_fold(crc64_fold(c, a), b),
    decreases b.len(),
{
    if b.len() == 0 {
        assert(a + b =~= a);
    } else {
        lemma_crc64_fold_append(c, a, b.drop_last());
        assert((a + b).drop_last() =~= a + b.drop_last());
        assert((a + b).last() == b.last());
    }
}

/// Zero bytes only step the register.
pub proof fn lemma_crc64_fold_zeros(c: u64, n: nat)
    ensures
        crc64_fold(c, zero_bytes(n)) == shifts64(c, 8 * n),
    decreases n,
{
    if n == 0 {
        assert(zero_bytes(0).len() == 0);
    } else {
        lemma_crc64_fold_zeros(c, (n - 1) as nat);
        assert(zero_bytes(n).drop_last() =~= zero_bytes((n - 1) as nat));
        let f = shifts64(c, 8 * (n - 1) as nat);
        lemma_xor64(f, 0, 0, 0);
        assert(f ^ (0u8 as u64) == f);
        lemma_shifts64_add(c, 8 * (n - 1) as nat, 8);
        assert(8 * (n - 1) as nat + 8 == 8 * n) by (nonlinear_arith)
            requires
                n > 0,
        ;
    }
}

/// The register is linear in its starting value.
pub proof fn lemma_crc64_fold_xor(c: u64, d: u64, s: Seq<u8>)
    ensures
        crc64_fold(c ^ d, s) == crc64_fold(c, s) ^ shifts64(d, 8 * s.len()),
    decreases s.len(),
{
    if s.len() == 0 {
    } else {
        let t = s.drop_last();
        lemma_crc64_fold_xor(c, d, t);
        let f = crc64_fold(c, t);
        let e = shifts64(d, 8 * t.len());
        let x = s.last() as u64;
        lemma_xor64(f, e, x, 0);
        lemma_xor64(e, x, 0, 0);
        lemma_xor64(f, x, e, 0);
        lemma_shifts64_linear(f ^ x, e, 8);
        lemma_shifts64_add(d, 8 * t.len(), 8);
        assert(8 * t.len() + 8 == 8 * s.len());
    }
}

} // verus!
