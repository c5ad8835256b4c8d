//! A run of zero bytes, held as the factors `256^n` by which it multiplies
//! each CRC register, so that any number of zero bytes folds into a
//! register at constant cost.
use vstd::prelude::*;

use vstd::arithmetic::power2::{
    lemma2_to64, lemma_pow2_pos, lemma_pow2_strictly_increases, lemma_pow2_unfold, pow2,
};

use crate::crc::{
    crc32_fold, crc64_fold, lemma_crc32_fold_append, lemma_crc32_fold_zeros,
    lemma_crc64_fold_append, lemma_crc64_fold_zeros, lemma_reflect32_shifts,
    lemma_reflect32_twice, lemma_reflect64_shifts, lemma_reflect64_twice, reflect32, reflect64,
    reflect_u32, reflect_u64, shifts32, shifts64, zero_bytes,
};
use crate::gf::{
    lemma_gf_mul32_xpow, lemma_gf_mul64_xpow, lemma_xpow32_add, lemma_xpow64_add, mul32, mul64,
    xpow32, xpow64,
};
use crate::tables::{is_pow256_32_table, is_pow256_64_table, pow256_32_table, pow256_64_table};

verus! {

/// A run of zero bytes, for [`DualCrc::update_with_zeros`](crate::DualCrc::update_with_zeros).
#[derive(Clone, Copy)]
pub struct Zeros {
    factor32: u32,
    factor64: u64,
    byte_count: Ghost<nat>,
}

impl Zeros {
    /// The number of zero bytes this value stands for.
    pub closed spec fn count(&self) -> nat {
        self.byte_count@
    }

    #[verifier::type_invariant]
    spec fn factors_match(&self) -> bool {
        &&& self.factor32 == xpow32(1, 8 * self.byte_count@)
        &&& self.factor64 == xpow64(1, 8 * self.byte_count@)
    }

    /// A run of `byte_count` zero bytes. After the tables of `256^(2^k)` are
    /// built, this costs one field multiplication per set bit of
    /// `byte_count` but the lowest.
    pub fn new(byte_count: usize) -> (z: Self)
        ensures
            z.count() == byte_count as nat,
    {
        let t32 = pow256_32_table();
        let t64 = pow256_64_table();
        Zeros {
            factor32: pow256_32(&t32, byte_count),
            factor64: pow256_64(&t64, byte_count),
            byte_count: Ghost(byte_count as nat),
        }
    }

    /// The inverted CRC-32C register `inverted_crc` after this run of zeros.
    pub(crate) fn apply_to_inverted_crc32(&self, inverted_crc: u32) -> (r: u32)
        ensures
            r == crc32_fold(inverted_crc, zero_bytes(self.count())),
    {
        proof {
            use_type_invariant(self);
        }
        let r = reflect_u32(mul32(reflect_u32(inverted_crc), self.factor32));
        proof {
            let n = 8 * self.count();
            lemma_gf_mul32_xpow(reflect32(inverted_crc), n);
            lemma_reflect32_shifts(inverted_crc, n);
            lemma_reflect32_twice(shifts32(inverted_crc, n));
            lemma_crc32_fold_zeros(inverted_crc, self.count());
        }
        r
    }

    /// The inverted CRC-64/XZ register `inverted_crc` after this run of zeros.
    pub(crate) fn apply_to_inverted_crc64(&self, inverted_crc: u64) -> (r: u64)
        ensures
            r == crc64_fold(inverted_crc, zero_bytes(self.count())),
    {
        proof {
            use_type_invariant(self);
        }
        let r = reflect_u64(mul64(reflect_u64(inverted_crc), self.factor64));
        proof {
            let n = 8 * self.count();
            lemma_gf_mul64_xpow(reflect64(inverted_crc), n);
            lemma_reflect64_shifts(inverted_crc, n);
            lemma_reflect64_twice(shifts64(inverted_crc, n));
            lemma_crc64_fold_zeros(inverted_crc, self.count());
        }
        r
    }
}

proof fn lemma_halve(x: usize)
    by (bit_vector)
    ensures
        x >> 1usize == x / 2,
        x & 1usize == x % 2,
{
}

/// A set bit at position `pos` of a `usize` lies below 64.
proof fn lemma_bit_position(power: usize, rest: nat, pos: nat)
    requires
        rest >= 1,
        power as int >= rest * pow2(pos),
    ensures
        pos < 64,
{
    lemma2_to64();
    lemma_pow2_pos(pos);
    if pos >= 64 {
        if pos > 64 {
            lemma_pow2_strictly_increases(64, pos);
        }
        assert(rest * pow2(pos) >= pow2(pos)) by (nonlinear_arith)
            requires
                rest >= 1,
                pow2(pos) > 0,
        ;
    }
}

/// `256^power` in the CRC-32C field, from the table of `256^(2^k)`: one
/// multiplication for each set bit of `power` above the lowest.
fn pow256_32(table: &Vec<u32>, power: usize) -> (r: u32)
    requires
        is_pow256_32_table(table@),
    ensures
        r == xpow32(1, 8 * power as nat),
{
    if power == 0 {
        return 1;
    }
    let mut pos: usize = 0;
    let mut rest: usize = power;
    proof {
        lemma2_to64();
    }
    while rest & 1 == 0
        invariant
            rest >= 1,
            power as int == rest as int * pow2(pos as nat),
        decreases rest,
    {
        proof {
            lemma_halve(rest);
            lemma_bit_position(power, rest as nat, pos as nat);
            lemma_pow2_unfold((pos + 1) as nat);
            let q = rest / 2;
            assert(power as int == q * pow2((pos + 1) as nat)) by (nonlinear_arith)
                requires
                    power as int == rest as int * pow2(pos as nat),
                    rest == 2 * q,
                    pow2((pos + 1) as nat) == 2 * pow2(pos as nat),
            ;
        }
        rest = rest >> 1;
        pos = pos + 1;
    }
    proof {
        lemma_halve(rest);
        lemma_bit_position(power, rest as nat, pos as nat);
    }
    let mut result = table[pos];
    let ghost mut low: nat = pow2(pos as nat);
    proof {
        lemma_pow2_unfold((pos + 1) as nat);
        let q = rest / 2;
        assert(power as int == low + q * pow2((pos + 1) as nat)) by (nonlinear_arith)
            requires
                power as int == rest as int * pow2(pos as nat),
                rest == 2 * q + 1,
                low == pow2(pos as nat),
                pow2((pos + 1) as nat) == 2 * pow2(pos as nat),
        ;
    }
    rest = rest >> 1;
    pos = pos + 1;
    while rest > 0
        invariant
            is_pow256_32_table(table@),
            power as int == low + rest as int * pow2(pos as nat),
            result == xpow32(1, 8 * low),
        decreases rest,
    {
        proof {
            lemma_halve(rest);
            lemma_bit_position(power, rest as nat, pos as nat);
            lemma_pow2_unfold((pos + 1) as nat);
        }
        let ghost q = rest / 2;
        if rest & 1 == 1 {
            let f = table[pos];
            proof {
                let m = 8 * pow2(pos as nat);
                lemma_gf_mul32_xpow(result, m);
                lemma_xpow32_add(1, 8 * low, m);
                assert(power as int == (low + pow2(pos as nat)) + q * pow2((pos + 1) as nat))
                    by (nonlinear_arith)
                    requires
                        power as int == low + rest as int * pow2(pos as nat),
                        rest == 2 * q + 1,
                        pow2((pos + 1) as nat) == 2 * pow2(pos as nat),
                ;
                low = low + pow2(pos as nat);
            }
            result = mul32(result, f);
        } else {
            proof {
                assert(power as int == low + q * pow2((pos + 1) as nat)) by (nonlinear_arith)
                    requires
                        power as int == low + rest as int * pow2(pos as nat),
                        rest == 2 * q,
                        pow2((pos + 1) as nat) == 2 * pow2(pos as nat),
                ;
            }
        }
        rest = rest >> 1;
        pos = pos + 1;
    }
    result
}

/// `256^power` in the CRC-64/XZ field, from the table of `256^(2^k)`: one
/// multiplication for each set bit of `power` above the lowest.
fn pow256_64(table: &Vec<u64>, power: usize) -> (r: u64)
    requires
        is_pow256_64_table(table@),
    ensures
        r == xpow64(1, 8 * power as nat),
{
    if power == 0 {
        return 1;
    }
    let mut pos: usize = 0;
    let mut rest: usize = power;
    proof {
        lemma2_to64();
    }
    while rest & 1 == 0
        invariant
            rest >= 1,
            power as int == rest as int * pow2(pos as nat),
        decreases rest,
    {
        proof {
            lemma_halve(rest);
            lemma_bit_position(power, rest as nat, pos as nat);
            lemma_pow2_unfold((pos + 1) as nat);
            let q = rest / 2;
            assert(power as int == q * pow2((pos + 1) as nat)) by (nonlinear_arith)
                requires
                    power as int == rest as int * pow2(pos as nat),
                    rest == 2 * q,
                    pow2((pos + 1) as nat) == 2 * pow2(pos as nat),
            ;
        }
        rest = rest >> 1;
        pos = pos + 1;
    }
    proof {
        lemma_halve(rest);
        lemma_bit_position(power, rest as nat, pos as nat);
    }
    let mut result = table[pos];
    let ghost mut low: nat = pow2(pos as nat);
    proof {
        lemma_pow2_unfold((pos + 1) as nat);
        let q = rest / 2;
        assert(power as int == low + q * pow2((pos + 1) as nat)) by (nonlinear_arith)
            requires
                power as int == rest as int * pow2(pos as nat),
                rest == 2 * q + 1,
                low == pow2(pos as nat),
                pow2((pos + 1) as nat) == 2 * pow2(pos as nat),
        ;
    }
    rest = rest >> 1;
    pos = pos + 1;
    while rest > 0
        invariant
            is_pow256_64_table(table@),
            power as int == low + rest as int * pow2(pos as nat),
            result == xpow64(1, 8 * low),
        decreases rest,
    {
        proof {
            lemma_halve(rest);
            lemma_bit_position(power, rest as nat, pos as nat);
            lemma_pow2_unfold((pos + 1) as nat);
        }
        let ghost q = rest / 2;
        if rest & 1 == 1 {
            let f = table[pos];
            proof {
                let m = 8 * pow2(pos as nat);
                lemma_gf_mul64_xpow(result, m);
                lemma_xpow64_add(1, 8 * low, m);
                assert(power as int == (low + pow2(pos as nat)) + q * pow2((pos + 1) as nat))
                    by (nonlinear_arith)
                    requires
                        power as int == low + rest as int * pow2(pos as nat),
                        rest == 2 * q + 1,
                        pow2((pos + 1) as nat) == 2 * pow2(pos as nat),
                ;
                low = low + pow2(pos as nat);
            }
            result = mul64(result, f);
        } else {
            proof {
                assert(power as int == low + q * pow2((pos + 1) as nat)) by (nonlinear_arith)
                    requires
                        power as int == low + rest as int * pow2(pos as nat),
                        rest == 2 * q,
                        pow2((pos + 1) as nat) == 2 * pow2(pos as nat),
                ;
            }
        }
        rest = rest >> 1;
        pos = pos + 1;
    }
    result
}

/// No zero bytes leave a register as it is.
pub proof fn lemma_zeros_identity(inverted_crc32: u32, inverted_crc64: u64)
    ensures
        crc32_fold(inverted_crc32, zero_bytes(0)) == inverted_crc32,
        crc64_fold(inverted_crc64, zero_bytes(0)) == inverted_crc64,
{
}

/// `m` zero bytes and then `n` more are `m + n` zero bytes.
pub proof fn lemma_zeros_compose(inverted_crc32: u32, inverted_crc64: u64, m: nat, n: nat)
    ensures
        crc32_fold(crc32_fold(inverted_crc32, zero_bytes(m)), zero_bytes(n)) == crc32_fold(
            inverted_crc32,
            zero_bytes(m + n),
        ),
        crc64_fold(crc64_fold(inverted_crc64, zero_bytes(m)), zero_bytes(n)) == crc64_fold(
            inverted_crc64,
            zero_bytes(m + n),
        ),
{
    assert(zero_bytes(m) + zero_bytes(n) =~= zero_bytes(m + n));
    lemma_crc32_fold_append(inverted_crc32, zero_bytes(m), zero_bytes(n));
    lemma_crc64_fold_append(inverted_crc64, zero_bytes(m), zero_bytes(n));
}

} // verus!
