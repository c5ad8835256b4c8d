//! Arithmetic in GF(2)[x] modulo the two CRC generator polynomials, in the
//! forward (non-reflected) bit order: bit `i` of a value holds the
//! coefficient of `x^i`.
use vstd::prelude::*;

verus! {

/// Low 32 coefficients of the CRC-32C generator `x^32 + ...`.
pub const POLY32: u32 = 0x1EDC6F41;

/// `a * x` modulo the CRC-32C generator.
pub open spec fn xmul32(a: u32) -> u32 {
    (a << 1u32) ^ (if a >> 31u32 == 1u32 { POLY32 } else { 0u32 })
}

/// `a * x^n` modulo the CRC-32C generator.
pub open spec fn xpow32(a: u32, n: nat) -> u32
    decreases n,
{
    if n == 0 {
        a
    } else {
        xmul32(xpow32(a, (n - 1) as nat))
    }
}

/// Coefficient `i` of `v`.
pub open spec fn bit32(v: u32, i: u32) -> bool {
    (v >> i) & 1u32 == 1u32
}

/// Horner's scheme over the `n` highest coefficients of `b`, times `a`.
pub open spec fn horner32(a: u32, b: u32, n: nat) -> u32
    decreases n,
{
    if n == 0 {
        0
    } else {
        let acc = xmul32(horner32(a, b, (n - 1) as nat));
        if n <= 32 && bit32(b, (32 - n) as u32) {
            acc ^ a
        } else {
            acc
        }
    }
}

/// The product `a * b` in the CRC-32C field.
pub open spec fn gf_mul32(a: u32, b: u32) -> u32 {
    horner32(a, b, 32)
}

/// The low `n` coefficients of `a`.
pub open spec fn low32(a: u32, n: u32) -> u32 {
    a & !(0xFFFF_FFFFu32 << n)
}

/// The laws of XOR and complement that the proofs use, as instances.
pub proof fn lemma_xor32(x: u32, y: u32, z: u32, w: u32)
    by (bit_vector)
    ensures
        x ^ 0 == x,
        0 ^ x == x,
        x ^ x == 0,
        x ^ y == y ^ x,
        (x ^ y) ^ z == x ^ (y ^ z),
        (x ^ y) ^ (z ^ w) == (x ^ z) ^ (y ^ w),
        x ^ (y ^ x) == y,
        (x ^ y) ^ z == (x ^ z) ^ y,
        (x ^ y) ^ y == x,
        !x ^ !y == x ^ y,
        !(!x) == x,
{
}

proof fn lemma_xmul32_bits(a: u32, b: u32, j: u32)
    by (bit_vector)
    ensures
        xmul32(a ^ b) == xmul32(a) ^ xmul32(b),
        xmul32(0) == 0,
        j < 31 ==> xmul32(1u32 << j) == 1u32 << ((j + 1) as u32),
        xmul32(1u32 << 31u32) == POLY32,
        1u32 << 0u32 == 1u32,
        1u32 << 8u32 == 256u32,
        b >> 0u32 == b,
        b << 0u32 == b,
        1 <= j <= 32 ==> xmul32(b >> j) ^ (if bit32(b, (j - 1) as u32) { 1u32 } else { 0u32 })
            == b >> ((j - 1) as u32),
        b >> 32u32 == 0,
{
}

proof fn lemma_bit32_facts(b: u32, c: u32, i: u32)
    by (bit_vector)
    ensures
        bit32(b ^ c, i) == (bit32(b, i) != bit32(c, i)),
        i < 31 ==> bit32(b << 1u32, (i + 1) as u32) == bit32(b, i),
        !bit32(b << 1u32, 0),
        1 <= i ==> !bit32(1, i),
        bit32(1, 0),
        !bit32(0, i),
        (b >> 31u32 == 1u32) == bit32(b, 31),
{
}

proof fn lemma_low32(a: u32, n: u32)
    by (bit_vector)
    ensures
        low32(a, 0) == 0,
        low32(a, 32) == a,
        n < 32 ==> low32(a, (n + 1) as u32) == low32(a, n) ^ (if bit32(a, n) {
            1u32 << n
        } else {
            0u32
        }),
{
}

/// Multiplying by `x` distributes over addition.
pub proof fn lemma_xpow32_linear(a: u32, b: u32, n: nat)
    ensures
        xpow32(a ^ b, n) == xpow32(a, n) ^ xpow32(b, n),
        xpow32(0, n) == 0,
    decreases n,
{
    if n > 0 {
        lemma_xpow32_linear(a, b, (n - 1) as nat);
        lemma_xmul32_bits(xpow32(a, (n - 1) as nat), xpow32(b, (n - 1) as nat), 0);
    }
}

/// Powers of `x` add up.
pub proof fn lemma_xpow32_add(a: u32, m: nat, n: nat)
    ensures
        xpow32(xpow32(a, m), n) == xpow32(a, m + n),
    decreases n,
{
    if n > 0 {
        lemma_xpow32_add(a, m, (n - 1) as nat);
        assert(xpow32(a, m + n) == xmul32(xpow32(a, (m + n - 1) as nat)));
    }
}

/// Below the degree of the generator, `x^j` is the single bit `j`.
proof fn lemma_xpow32_one(j: nat)
    requires
        j < 32,
    ensures
        xpow32(1, j) == 1u32 << (j as u32),
    decreases j,
{
    lemma_xmul32_bits(0, 0, 0);
    if j > 0 {
        lemma_xpow32_one((j - 1) as nat);
        lemma_xmul32_bits(0, 0, (j - 1) as u32);
    }
}

/// `x^8` is 256.
pub proof fn lemma_xpow32_byte()
    ensures
        xpow32(1, 8) == 256,
{
    lemma_xpow32_one(8);
    lemma_xmul32_bits(0, 0, 0);
}

/// `x^32` reduces to the generator's low coefficients.
proof fn lemma_xpow32_degree()
    ensures
        xpow32(1, 32) == POLY32,
{
    lemma_xpow32_one(31);
    lemma_xmul32_bits(0, 0, 0);
}

proof fn lemma_horner32_one(b: u32, n: nat)
    requires
        n <= 32,
    ensures
        horner32(1, b, n) == b >> ((32 - n) as u32),
    decreases n,
{
    if n == 0 {
        lemma_xmul32_bits(0, b, 0);
    } else {
        lemma_horner32_one(b, (n - 1) as nat);
        lemma_xmul32_bits(0, b, (32 - n + 1) as u32);
        lemma_xor32(xmul32(b >> ((32 - n + 1) as u32)), 0, 0, 0);
    }
}

/// `1 * b == b`.
pub proof fn lemma_gf_mul32_one_left(b: u32)
    ensures
        gf_mul32(1, b) == b,
{
    lemma_horner32_one(b, 32);
    lemma_xmul32_bits(0, b, 0);
}

proof fn lemma_horner32_zero(a: u32, b: u32, n: nat)
    ensures
        horner32(0, b, n) == 0,
        horner32(a, 0, n) == 0,
    decreases n,
{
    if n > 0 {
        lemma_horner32_zero(a, b, (n - 1) as nat);
        lemma_xmul32_bits(0, 0, 0);
        lemma_bit32_facts(0, 0, (32 - n) as u32);
        lemma_xor32(0, 0, 0, 0);
    }
}

proof fn lemma_horner32_linear_left(a: u32, c: u32, b: u32, n: nat)
    ensures
        horner32(a ^ c, b, n) == horner32(a, b, n) ^ horner32(c, b, n),
    decreases n,
{
    lemma_xor32(0, 0, 0, 0);
    if n > 0 {
        lemma_horner32_linear_left(a, c, b, (n - 1) as nat);
        let x = xmul32(horner32(a, b, (n - 1) as nat));
        let y = xmul32(horner32(c, b, (n - 1) as nat));
        lemma_xmul32_bits(horner32(a, b, (n - 1) as nat), horner32(c, b, (n - 1) as nat), 0);
        lemma_xor32(x, y, a, c);
    }
}

proof fn lemma_horner32_linear_right(a: u32, b: u32, c: u32, n: nat)
    ensures
        horner32(a, b ^ c, n) == horner32(a, b, n) ^ horner32(a, c, n),
    decreases n,
{
    lemma_xor32(0, 0, 0, 0);
    if n > 0 {
        lemma_horner32_linear_right(a, b, c, (n - 1) as nat);
        let x = xmul32(horner32(a, b, (n - 1) as nat));
        let y = xmul32(horner32(a, c, (n - 1) as nat));
        lemma_xmul32_bits(horner32(a, b, (n - 1) as nat), horner32(a, c, (n - 1) as nat), 0);
        lemma_bit32_facts(b, c, (32 - n) as u32);
        lemma_xor32(x, y, a, a);
        lemma_xor32(x, y, a, 0);
        lemma_xor32(x ^ y, 0, 0, 0);
        lemma_xor32(x, 0, 0, 0);
        lemma_xor32(y, 0, 0, 0);
        lemma_xor32(a, 0, 0, 0);
    }
}

proof fn lemma_horner32_xmul_left(a: u32, b: u32, n: nat)
    ensures
        horner32(xmul32(a), b, n) == xmul32(horner32(a, b, n)),
    decreases n,
{
    lemma_xmul32_bits(0, 0, 0);
    if n > 0 {
        lemma_horner32_xmul_left(a, b, (n - 1) as nat);
        let h = horner32(a, b, (n - 1) as nat);
        lemma_xmul32_bits(xmul32(h), a, 0);
        lemma_xmul32_bits(h, a, 0);
    }
}

proof fn lemma_horner32_xpow_left(a: u32, b: u32, j: nat, n: nat)
    ensures
        horner32(xpow32(a, j), b, n) == xpow32(horner32(a, b, n), j),
    decreases j,
{
    if j > 0 {
        lemma_horner32_xpow_left(a, b, (j - 1) as nat, n);
        lemma_horner32_xmul_left(xpow32(a, (j - 1) as nat), b, n);
    }
}

/// `x^32 * x^j == x^j * (x^32 mod P)` for each single coefficient.
proof fn lemma_xpow32_32_basis(j: nat)
    requires
        j < 32,
    ensures
        xpow32(xpow32(1, j), 32) == gf_mul32(xpow32(1, j), POLY32),
{
    lemma_xpow32_add(1, j, 32);
    lemma_xpow32_add(1, 32, j);
    lemma_xpow32_degree();
    lemma_horner32_xpow_left(1, POLY32, j, 32);
    lemma_gf_mul32_one_left(POLY32);
}

proof fn lemma_xpow32_32_low(a: u32, n: u32)
    requires
        n <= 32,
    ensures
        xpow32(low32(a, n), 32) == gf_mul32(low32(a, n), POLY32),
    decreases n,
{
    lemma_low32(a, 0);
    lemma_xpow32_linear(0, 0, 32);
    lemma_horner32_zero(0, POLY32, 32);
    if n > 0 {
        let m = (n - 1) as u32;
        lemma_xpow32_32_low(a, m);
        lemma_low32(a, m);
        let lo = low32(a, m);
        let e: u32 = if bit32(a, m) { 1u32 << m } else { 0u32 };
        if bit32(a, m) {
            lemma_xpow32_one(m as nat);
            lemma_xpow32_32_basis(m as nat);
        }
        lemma_xpow32_linear(lo, e, 32);
        lemma_horner32_linear_left(lo, e, POLY32, 32);
        lemma_horner32_zero(0, POLY32, 32);
    }
}

/// `x^32 * a == a * (x^32 mod P)`: the generator annihilates multiplication by `x`.
proof fn lemma_xpow32_32(a: u32)
    ensures
        xpow32(a, 32) == gf_mul32(a, POLY32),
{
    lemma_xpow32_32_low(a, 32);
    lemma_low32(a, 32);
}

/// Peels the highest coefficient of `b` off Horner's scheme.
proof fn lemma_horner32_split(a: u32, b: u32, n: nat)
    requires
        n < 32,
    ensures
        horner32(a, b, n + 1) == (if bit32(b, 31) {
            xpow32(a, n)
        } else {
            0
        }) ^ horner32(a, b << 1u32, n),
    decreases n,
{
    if n == 0 {
        lemma_xmul32_bits(0, 0, 0);
        lemma_xor32(a, 0, 0, 0);
        lemma_xor32(0, 0, 0, 0);
        assert(horner32(a, b, 0) == 0);
    } else {
        lemma_horner32_split(a, b, (n - 1) as nat);
        let h = horner32(a, b << 1u32, (n - 1) as nat);
        let t = if bit32(b, 31) { xpow32(a, (n - 1) as nat) } else { 0 };
        lemma_xmul32_bits(t, h, 0);
        lemma_bit32_facts(b, 0, (31 - n) as u32);
        lemma_xor32(xmul32(t), xmul32(h), a, 0);
        lemma_xor32(xmul32(h), 0, 0, 0);
    }
}

/// Multiplying the second factor by `x` multiplies the product by `x`.
proof fn lemma_gf_mul32_xmul_right(a: u32, b: u32)
    ensures
        gf_mul32(a, xmul32(b)) == xmul32(gf_mul32(a, b)),
{
    let top = if bit32(b, 31) { POLY32 } else { 0u32 };
    lemma_bit32_facts(b, 0, 0);
    assert(xmul32(b) == (b << 1u32) ^ top);
    lemma_horner32_linear_right(a, b << 1u32, top, 32);
    lemma_horner32_zero(a, 0, 32);
    let h = horner32(a, b << 1u32, 31);
    assert(horner32(a, b << 1u32, 32) == xmul32(h));
    lemma_horner32_split(a, b, 31);
    let t = if bit32(b, 31) { xpow32(a, 31) } else { 0 };
    lemma_xmul32_bits(t, h, 0);
    lemma_xpow32_32(a);
    lemma_bit32_facts(b << 1u32, 0, 0);
    lemma_xor32(xmul32(h), 0, 0, 0);
    lemma_xor32(xmul32(h), xmul32(t), 0, 0);
}

/// `a * 1 == a`.
proof fn lemma_gf_mul32_one_right(a: u32)
    ensures
        gf_mul32(a, 1) == a,
{
    lemma_horner32_ones_prefix(a, 31);
    lemma_bit32_facts(0, 0, 0);
    lemma_xmul32_bits(0, 0, 0);
    lemma_xor32(a, 0, 0, 0);
}

proof fn lemma_horner32_ones_prefix(a: u32, n: nat)
    requires
        n < 32,
    ensures
        horner32(a, 1, n) == 0,
    decreases n,
{
    if n > 0 {
        lemma_horner32_ones_prefix(a, (n - 1) as nat);
        lemma_xmul32_bits(0, 0, 0);
        lemma_bit32_facts(0, 0, (32 - n) as u32);
        lemma_xor32(a, 0, 0, 0);
    }
}

/// Multiplying by `x^n` (reduced) is the same as multiplying by `x` `n` times.
pub proof fn lemma_gf_mul32_xpow(a: u32, n: nat)
    ensures
        gf_mul32(a, xpow32(1, n)) == xpow32(a, n),
    decreases n,
{
    if n == 0 {
        lemma_gf_mul32_one_right(a);
    } else {
        lemma_gf_mul32_xpow(a, (n - 1) as nat);
        lemma_gf_mul32_xmul_right(a, xpow32(1, (n - 1) as nat));
    }
}

proof fn lemma_top_bit32(x: u32)
    by (bit_vector)
    ensures
        x >> 31u32 <= 1,
{
}

proof fn lemma_mul32_step(p: u32, rest: u32, a: u32, b: u32, i: u32, reduce: u32, pick: u32)
    by (bit_vector)
    requires
        i < 32,
        rest == b << i,
        reduce == (if p >> 31u32 == 0 { 0u32 } else { 0xFFFF_FFFFu32 }),
        pick == (if rest >> 31u32 == 0 { 0u32 } else { 0xFFFF_FFFFu32 }),
    ensures
        ((p << 1u32) ^ (reduce & POLY32)) ^ (pick & a) == (if bit32(b, (31 - i) as u32) {
            xmul32(p) ^ a
        } else {
            xmul32(p)
        }),
        rest << 1u32 == b << ((i + 1) as u32),
{
}

/// Multiplies `a` by `b` in the CRC-32C field, taking the coefficients of
/// `b` from the highest down, with masks in place of branches.
pub fn mul32(a: u32, b: u32) -> (r: u32)
    ensures
        r == gf_mul32(a, b),
{
    let mut product: u32 = 0;
    let mut rest: u32 = b;
    let mut i: u32 = 0;
    proof {
        lemma_xmul32_bits(0, b, 0);
    }
    while i < 32
        invariant
            i <= 32,
            product == horner32(a, b, i as nat),
            rest == b << i,
        decreases 32 - i,
    {
        proof {
            lemma_top_bit32(product);
            lemma_top_bit32(rest);
        }
        let reduce = 0u32.wrapping_sub(product >> 31);
        let pick = 0u32.wrapping_sub(rest >> 31);
        proof {
            lemma_mul32_step(product, rest, a, b, i, reduce, pick);
        }
        product = ((product << 1) ^ (reduce & POLY32)) ^ (pick & a);
        rest = rest << 1;
        i = i + 1;
    }
    product
}

/// Low 64 coefficients of the CRC-64/XZ generator `x^64 + ...`.
pub const POLY64: u64 = 0x42F0E1EBA9EA3693;

/// `a * x` modulo the CRC-64/XZ generator.
pub open spec fn xmul64(a: u64) -> u64 {
    (a << 1u64) ^ (if a >> 63u64 == 1u64 { POLY64 } else { 0u64 })
}

/// `a * x^n` modulo the CRC-64/XZ generator.
pub open spec fn xpow64(a: u64, n: nat) -> u64
    decreases n,
{
    if n == 0 {
        a
    } else {
        xmul64(xpow64(a, (n - 1) as nat))
    }
}

/// Coefficient `i` of `v`.
pub open spec fn bit64(v: u64, i: u64) -> bool {
    (v >> i) & 1u64 == 1u64
}

/// Horner's scheme over the `n` highest coefficients of `b`, times `a`.
pub open spec fn horner64(a: u64, b: u64, n: nat) -> u64
    decreases n,
{
    if n == 0 {
        0
    } else {
        let acc = xmul64(horner64(a, b, (n - 1) as nat));
        if n <= 64 && bit64(b, (64 - n) as u64) {
            acc ^ a
        } else {
            acc
        }
    }
}

/// The product `a * b` in the CRC-64/XZ field.
pub open spec fn gf_mul64(a: u64, b: u64) -> u64 {
    horner64(a, b, 64)
}

/// The low `n` coefficients of `a`.
pub open spec fn low64(a: u64, n: u64) -> u64 {
    a & !(0xFFFF_FFFF_FFFF_FFFFu64 << n)
}

/// The laws of XOR and complement that the proofs use, as instances.
pub proof fn lemma_xor64(x: u64, y: u64, z: u64, w: u64)
    by (bit_vector)
    ensures
        x ^ 0 == x,
        0 ^ x == x,
        x ^ x == 0,
        x ^ y == y ^ x,
        (x ^ y) ^ z == x ^ (y ^ z),
        (x ^ y) ^ (z ^ w) == (x ^ z) ^ (y ^ w),
        x ^ (y ^ x) == y,
        (x ^ y) ^ z == (x ^ z) ^ y,
        (x ^ y) ^ y == x,
        !x ^ !y == x ^ y,
        !(!x) == x,
{
}

proof fn lemma_xmul64_bits(a: u64, b: u64, j: u64)
    by (bit_vector)
    ensures
        xmul64(a ^ b) == xmul64(a) ^ xmul64(b),
        xmul64(0) == 0,
        j < 63 ==> xmul64(1u64 << j) == 1u64 << ((j + 1) as u64),
        xmul64(1u64 << 63u64) == POLY64,
        1u64 << 0u64 == 1u64,
        1u64 << 8u64 == 256u64,
        b >> 0u64 == b,
        b << 0u64 == b,
        1 <= j <= 64 ==> xmul64(b >> j) ^ (if bit64(b, (j - 1) as u64) { 1u64 } else { 0u64 })
            == b >> ((j - 1) as u64),
        b >> 64u64 == 0,
{
}

proof fn lemma_bit64_facts(b: u64, c: u64, i: u64)
    by (bit_vector)
    ensures
        bit64(b ^ c, i) == (bit64(b, i) != bit64(c, i)),
        i < 63 ==> bit64(b << 1u64, (i + 1) as u64) == bit64(b, i),
        !bit64(b << 1u64, 0),
        1 <= i ==> !bit64(1, i),
        bit64(1, 0),
        !bit64(0, i),
        (b >> 63u64 == 1u64) == bit64(b, 63),
{
}

proof fn lemma_low64(a: u64, n: u64)
    by (bit_vector)
    ensures
        low64(a, 0) == 0,
        low64(a, 64) == a,
        n < 64 ==> low64(a, (n + 1) as u64) == low64(a, n) ^ (if bit64(a, n) {
            1u64 << n
        } else {
            0u64
        }),
{
}

/// Multiplying by `x` distributes over addition.
pub proof fn lemma_xpow64_linear(a: u64, b: u64, n: nat)
    ensures
        xpow64(a ^ b, n) == xpow64(a, n) ^ xpow64(b, n),
        xpow64(0, n) == 0,
    decreases n,
{
    if n > 0 {
        lemma_xpow64_linear(a, b, (n - 1) as nat);
        lemma_xmul64_bits(xpow64(a, (n - 1) as nat), xpow64(b, (n - 1) as nat), 0);
    }
}

/// Powers of `x` add up.
pub proof fn lemma_xpow64_add(a: u64, m: nat, n: nat)
    ensures
        xpow64(xpow64(a, m), n) == xpow64(a, m + n),
    decreases n,
{
    if n > 0 {
        lemma_xpow64_add(a, m, (n - 1) as nat);
        assert(xpow64(a, m + n) == xmul64(xpow64(a, (m + n - 1) as nat)));
    }
}

/// Below the degree of the generator, `x^j` is the single bit `j`.
proof fn lemma_xpow64_one(j: nat)
    requires
        j < 64,
    ensures
        xpow64(1, j) == 1u64 << (j as u64),
    decreases j,
{
    lemma_xmul64_bits(0, 0, 0);
    if j > 0 {
        lemma_xpow64_one((j - 1) as nat);
        lemma_xmul64_bits(0, 0, (j - 1) as u64);
    }
}

/// `x^8` is 256.
pub proof fn lemma_xpow64_byte()
    ensures
        xpow64(1, 8) == 256,
{
    lemma_xpow64_one(8);
    lemma_xmul64_bits(0, 0, 0);
}

/// `x^64` reduces to the generator's low coefficients.
proof fn lemma_xpow64_degree()
    ensures
        xpow64(1, 64) == POLY64,
{
    lemma_xpow64_one(63);
    lemma_xmul64_bits(0, 0, 0);
}

proof fn lemma_horner64_one(b: u64, n: nat)
    requires
        n <= 64,
    ensures
        horner64(1, b, n) == b >> ((64 - n) as u64),
    decreases n,
{
    if n == 0 {
        lemma_xmul64_bits(0, b, 0);
    } else {
        lemma_horner64_one(b, (n - 1) as nat);
        lemma_xmul64_bits(0, b, (64 - n + 1) as u64);
        lemma_xor64(xmul64(b >> ((64 - n + 1) as u64)), 0, 0, 0);
    }
}

/// `1 * b == b`.
pub proof fn lemma_gf_mul64_one_left(b: u64)
    ensures
        gf_mul64(1, b) == b,
{
    lemma_horner64_one(b, 64);
    lemma_xmul64_bits(0, b, 0);
}

proof fn lemma_horner64_zero(a: u64, b: u64, n: nat)
    ensures
        horner64(0, b, n) == 0,
        horner64(a, 0, n) == 0,
    decreases n,
{
    if n > 0 {
        lemma_horner64_zero(a, b, (n - 1) as nat);
        lemma_xmul64_bits(0, 0, 0);
        lemma_bit64_facts(0, 0, (64 - n) as u64);
        lemma_xor64(0, 0, 0, 0);
    }
}

proof fn lemma_horner64_linear_left(a: u64, c: u64, b: u64, n: nat)
    ensures
        horner64(a ^ c, b, n) == horner64(a, b, n) ^ horner64(c, b, n),
    decreases n,
{
    lemma_xor64(0, 0, 0, 0);
    if n > 0 {
        lemma_horner64_linear_left(a, c, b, (n - 1) as nat);
        let x = xmul64(horner64(a, b, (n - 1) as nat));
        let y = xmul64(horner64(c, b, (n - 1) as nat));
        lemma_xmul64_bits(horner64(a, b, (n - 1) as nat), horner64(c, b, (n - 1) as nat), 0);
        lemma_xor64(x, y, a, c);
    }
}

proof fn lemma_horner64_linear_right(a: u64, b: u64, c: u64, n: nat)
    ensures
        horner64(a, b ^ c, n) == horner64(a, b, n) ^ horner64(a, c, n),
    decreases n,
{
    lemma_xor64(0, 0, 0, 0);
    if n > 0 {
        lemma_horner64_linear_right(a, b, c, (n - 1) as nat);
        let x = xmul64(horner64(a, b, (n - 1) as nat));
        let y = xmul64(horner64(a, c, (n - 1) as nat));
        lemma_xmul64_bits(horner64(a, b, (n - 1) as nat), horner64(a, c, (n - 1) as nat), 0);
        lemma_bit64_facts(b, c, (64 - n) as u64);
        lemma_xor64(x, y, a, a);
        lemma_xor64(x, y, a, 0);
        lemma_xor64(x ^ y, 0, 0, 0);
        lemma_xor64(x, 0, 0, 0);
        lemma_xor64(y, 0, 0, 0);
        lemma_xor64(a, 0, 0, 0);
    }
}

proof fn lemma_horner64_xmul_left(a: u64, b: u64, n: nat)
    ensures
        horner64(xmul64(a), b, n) == xmul64(horner64(a, b, n)),
    decreases n,
{
    lemma_xmul64_bits(0, 0, 0);
    if n > 0 {
        lemma_horner64_xmul_left(a, b, (n - 1) as nat);
        let h = horner64(a, b, (n - 1) as nat);
        lemma_xmul64_bits(xmul64(h), a, 0);
        lemma_xmul64_bits(h, a, 0);
    }
}

proof fn lemma_horner64_xpow_left(a: u64, b: u64, j: nat, n: nat)
    ensures
        horner64(xpow64(a, j), b, n) == xpow64(horner64(a, b, n), j),
    decreases j,
{
    if j > 0 {
        lemma_horner64_xpow_left(a, b, (j - 1) as nat, n);
        lemma_horner64_xmul_left(xpow64(a, (j - 1) as nat), b, n);
    }
}

/// `x^64 * x^j == x^j * (x^64 mod P)` for each single coefficient.
proof fn lemma_xpow64_64_basis(j: nat)
    requires
        j < 64,
    ensures
        xpow64(xpow64(1, j), 64) == gf_mul64(xpow64(1, j), POLY64),
{
    lemma_xpow64_add(1, j, 64);
    lemma_xpow64_add(1, 64, j);
    lemma_xpow64_degree();
    lemma_horner64_xpow_left(1, POLY64, j, 64);
    lemma_gf_mul64_one_left(POLY64);
}

proof fn lemma_xpow64_64_low(a: u64, n: u64)
    requires
        n <= 64,
    ensures
        xpow64(low64(a, n), 64) == gf_mul64(low64(a, n), POLY64),
    decreases n,
{
    lemma_low64(a, 0);
    lemma_xpow64_linear(0, 0, 64);
    lemma_horner64_zero(0, POLY64, 64);
    if n > 0 {
        let m = (n - 1) as u64;
        lemma_xpow64_64_low(a, m);
        lemma_low64(a, m);
        let lo = low64(a, m);
        let e: u64 = if bit64(a, m) { 1u64 << m } else { 0u64 };
        if bit64(a, m) {
            lemma_xpow64_one(m as nat);
            lemma_xpow64_64_basis(m as nat);
        }
        lemma_xpow64_linear(lo, e, 64);
        lemma_horner64_linear_left(lo, e, POLY64, 64);
        lemma_horner64_zero(0, POLY64, 64);
    }
}

/// `x^64 * a == a * (x^64 mod P)`: the generator annihilates multiplication by `x`.
proof fn lemma_xpow64_64(a: u64)
    ensures
        xpow64(a, 64) == gf_mul64(a, POLY64),
{
    lemma_xpow64_64_low(a, 64);
    lemma_low64(a, 64);
}

/// Peels the highest coefficient of `b` off Horner's scheme.
proof fn lemma_horner64_split(a: u64, b: u64, n: nat)
    requires
        n < 64,
    ensures
        horner64(a, b, n + 1) == (if bit64(b, 63) {
            xpow64(a, n)
        } else {
            0
        }) ^ horner64(a, b << 1u64, n),
    decreases n,
{
    if n == 0 {
        lemma_xmul64_bits(0, 0, 0);
        lemma_xor64(a, 0, 0, 0);
        lemma_xor64(0, 0, 0, 0);
        assert(horner64(a, b, 0) == 0);
    } else {
        lemma_horner64_split(a, b, (n - 1) as nat);
        let h = horner64(a, b << 1u64, (n - 1) as nat);
        let t = if bit64(b, 63) { xpow64(a, (n - 1) as nat) } else { 0 };
        lemma_xmul64_bits(t, h, 0);
        lemma_bit64_facts(b, 0, (63 - n) as u64);
        lemma_xor64(xmul64(t), xmul64(h), a, 0);
        lemma_xor64(xmul64(h), 0, 0, 0);
    }
}

/// Multiplying the second factor by `x` multiplies the product by `x`.
proof fn lemma_gf_mul64_xmul_right(a: u64, b: u64)
    ensures
        gf_mul64(a, xmul64(b)) == xmul64(gf_mul64(a, b)),
{
    let top = if bit64(b, 63) { POLY64 } else { 0u64 };
    lemma_bit64_facts(b, 0, 0);
    assert(xmul64(b) == (b << 1u64) ^ top);
    lemma_horner64_linear_right(a, b << 1u64, top, 64);
    lemma_horner64_zero(a, 0, 64);
    let h = horner64(a, b << 1u64, 63);
    assert(horner64(a, b << 1u64, 64) == xmul64(h));
    lemma_horner64_split(a, b, 63);
    let t = if bit64(b, 63) { xpow64(a, 63) } else { 0 };
    lemma_xmul64_bits(t, h, 0);
    lemma_xpow64_64(a);
    lemma_bit64_facts(b << 1u64, 0, 0);
    lemma_xor64(xmul64(h), 0, 0, 0);
    lemma_xor64(xmul64(h), xmul64(t), 0, 0);
}

/// `a * 1 == a`.
proof fn lemma_gf_mul64_one_right(a: u64)
    ensures
        gf_mul64(a, 1) == a,
{
    lemma_horner64_ones_prefix(a, 63);
    lemma_bit64_facts(0, 0, 0);
    lemma_xmul64_bits(0, 0, 0);
    lemma_xor64(a, 0, 0, 0);
}

proof fn lemma_horner64_ones_prefix(a: u64, n: nat)
    requires
        n < 64,
    ensures
        horner64(a, 1, n) == 0,
    decreases n,
{
    if n > 0 {
        lemma_horner64_ones_prefix(a, (n - 1) as nat);
        lemma_xmul64_bits(0, 0, 0);
        lemma_bit64_facts(0, 0, (64 - n) as u64);
        lemma_xor64(a, 0, 0, 0);
    }
}

/// Multiplying by `x^n` (reduced) is the same as multiplying by `x` `n` times.
pub proof fn lemma_gf_mul64_xpow(a: u64, n: nat)
    ensures
        gf_mul64(a, xpow64(1, n)) == xpow64(a, n),
    decreases n,
{
    if n == 0 {
        lemma_gf_mul64_one_right(a);
    } else {
        lemma_gf_mul64_xpow(a, (n - 1) as nat);
        lemma_gf_mul64_xmul_right(a, xpow64(1, (n - 1) as nat));
    }
}

proof fn lemma_top_bit64(x: u64)
    by (bit_vector)
    ensures
        x >> 63u64 <= 1,
{
}

proof fn lemma_mul64_step(p: u64, rest: u64, a: u64, b: u64, i: u64, reduce: u64, pick: u64)
    by (bit_vector)
    requires
        i < 64,
        rest == b << i,
        reduce == (if p >> 63u64 == 0 { 0u64 } else { 0xFFFF_FFFF_FFFF_FFFFu64 }),
        pick == (if rest >> 63u64 == 0 { 0u64 } else { 0xFFFF_FFFF_FFFF_FFFFu64 }),
    ensures
        ((p << 1u64) ^ (reduce & POLY64)) ^ (pick & a) == (if bit64(b, (63 - i) as u64) {
            xmul64(p) ^ a
        } else {
            xmul64(p)
        }),
        rest << 1u64 == b << ((i + 1) as u64),
{
}

/// Multiplies `a` by `b` in the CRC-64/XZ field, taking the coefficients of
/// `b` from the highest down, with masks in place of branches.
pub fn mul64(a: u64, b: u64) -> (r: u64)
    ensures
        r == gf_mul64(a, b),
{
    let mut product: u64 = 0;
    let mut rest: u64 = b;
    let mut i: u64 = 0;
    proof {
        lemma_xmul64_bits(0, b, 0);
    }
    while i < 64
        invariant
            i <= 64,
            product == horner64(a, b, i as nat),
            rest == b << i,
        decreases 64 - i,
    {
        proof {
            lemma_top_bit64(product);
            lemma_top_bit64(rest);
        }
        let reduce = 0u64.wrapping_sub(product >> 63);
        let pick = 0u64.wrapping_sub(rest >> 63);
        proof {
            lemma_mul64_step(product, rest, a, b, i, reduce, pick);
        }
        product = ((product << 1) ^ (reduce & POLY64)) ^ (pick & a);
        rest = rest << 1;
        i = i + 1;
    }
    product
}

} // verus!
