//! One-shot and incremental computation of both checksums.
use vstd::prelude::*;

use crate::crc::{
    crc32_fold, crc32c, crc64_fold, crc64xz, lemma_crc32_fold_append, lemma_crc64_fold_append,
    zero_bytes,
};
use crate::tables::{
    crc32_slices, crc64_slices, is_crc32_table, is_crc64_table, update_inverted_crc32,
    update_inverted_crc32_8bytes, update_inverted_crc64, update_inverted_crc64_8bytes,
};
use crate::zeros::Zeros;

verus! {

/// The CRC-32C and CRC-64/XZ registers of a stream of bytes, kept inverted:
/// each starts at all ones and a checksum is its register's complement.
#[derive(Clone, Copy, Debug, Hash)]
pub struct DualCrc {
    inverted_crc32: u32,
    inverted_crc64: u64,
}

/// Folds `data` into the inverted CRC-32C register, eight bytes at a time
/// and then byte by byte.
fn fold_crc32(t: &Vec<Vec<u32>>, inverted_crc: u32, data: &[u8]) -> (r: u32)
    requires
        is_crc32_table(t@),
    ensures
        r == crc32_fold(inverted_crc, data@),
{
    let mut c = inverted_crc;
    let mut pos: usize = 0;
    let n: usize = data.len();
    let mut remaining: usize = n;
    assert(data@.subrange(0, 0).len() == 0);
    while remaining >= 8
        invariant
            is_crc32_table(t@),
            pos + remaining == n,
            n == data@.len(),
            c == crc32_fold(inverted_crc, data@.subrange(0, pos as int)),
        decreases remaining,
    {
        c = update_inverted_crc32_8bytes(t, c, data, pos);
        proof {
            let s = data@;
            let p = pos as int;
            lemma_crc32_fold_append(inverted_crc, s.subrange(0, p), s.subrange(p, p + 8));
            assert(s.subrange(0, p) + s.subrange(p, p + 8) =~= s.subrange(0, p + 8));
        }
        pos = pos + 8;
        remaining = remaining - 8;
    }
    while remaining > 0
        invariant
            is_crc32_table(t@),
            pos + remaining == n,
            n == data@.len(),
            c == crc32_fold(inverted_crc, data@.subrange(0, pos as int)),
        decreases remaining,
    {
        c = update_inverted_crc32(&t[0], c, data[pos]);
        proof {
            assert(data@.subrange(0, pos + 1).drop_last() =~= data@.subrange(0, pos as int));
        }
        pos = pos + 1;
        remaining = remaining - 1;
    }
    assert(data@.subrange(0, pos as int) =~= data@);
    c
}

/// Folds `data` into the inverted CRC-64/XZ register, eight bytes at a time
/// and then byte by byte.
fn fold_crc64(t: &Vec<Vec<u64>>, inverted_crc: u64, data: &[u8]) -> (r: u64)
    requires
        is_crc64_table(t@),
    ensures
        r == crc64_fold(inverted_crc, data@),
{
    let mut c = inverted_crc;
    let mut pos: usize = 0;
    let n: usize = data.len();
    let mut remaining: usize = n;
    assert(data@.subrange(0, 0).len() == 0);
    while remaining >= 8
        invariant
            is_crc64_table(t@),
            pos + remaining == n,
            n == data@.len(),
            c == crc64_fold(inverted_crc, data@.subrange(0, pos as int)),
        decreases remaining,
    {
        c = update_inverted_crc64_8bytes(t, c, data, pos);
        proof {
            let s = data@;
            let p = pos as int;
            lemma_crc64_fold_append(inverted_crc, s.subrange(0, p), s.subrange(p, p + 8));
            assert(s.subrange(0, p) + s.subrange(p, p + 8) =~= s.subrange(0, p + 8));
        }
        pos = pos + 8;
        remaining = remaining - 8;
    }
    while remaining > 0
        invariant
            is_crc64_table(t@),
            pos + remaining == n,
            n == data@.len(),
            c == crc64_fold(inverted_crc, data@.subrange(0, pos as int)),
        decreases remaining,
    {
        c = update_inverted_crc64(&t[0], c, data[pos]);
        proof {
            assert(data@.subrange(0, pos + 1).drop_last() =~= data@.subrange(0, pos as int));
        }
        pos = pos + 1;
        remaining = remaining - 1;
    }
    assert(data@.subrange(0, pos as int) =~= data@);
    c
}

impl DualCrc {
    /// The inverted CRC-32C register.
    pub closed spec fn state32(&self) -> u32 {
        self.inverted_crc32
    }

    /// The inverted CRC-64/XZ register.
    pub closed spec fn state64(&self) -> u64 {
        self.inverted_crc64
    }

    /// CRC-32C and CRC-64/XZ checksums of `data`.
    pub fn checksum(data: &[u8]) -> (r: (u32, u64))
        ensures
            r == (crc32c(data@), crc64xz(data@)),
    {
        (Self::checksum32(data), Self::checksum64(data))
    }

    /// CRC-32C checksum of `data`.
    pub fn checksum32(data: &[u8]) -> (r: u32)
        ensures
            r == crc32c(data@),
    {
        let t = crc32_slices();
        !fold_crc32(&t, 0xFFFF_FFFF, data)
    }

    /// CRC-64/XZ checksum of `data`.
    pub fn checksum64(data: &[u8]) -> (r: u64)
        ensures
            r == crc64xz(data@),
    {
        let t = crc64_slices();
        !fold_crc64(&t, 0xFFFF_FFFF_FFFF_FFFF, data)
    }

    /// Both checksums of the bytes taken in so far; the computation can go on.
    pub fn get(&self) -> (r: (u32, u64))
        ensures
            r == (!self.state32(), !self.state64()),
    {
        (!self.inverted_crc32, !self.inverted_crc64)
    }

    /// The CRC-32C checksum of the bytes taken in so far.
    pub fn get32(&self) -> (r: u32)
        ensures
            r == !self.state32(),
    {
        !self.inverted_crc32
    }

    /// The CRC-64/XZ checksum of the bytes taken in so far.
    pub fn get64(&self) -> (r: u64)
        ensures
            r == !self.state64(),
    {
        !self.inverted_crc64
    }

    /// Starts both checksums over no bytes.
    pub fn new() -> (r: Self)
        ensures
            r.state32() == 0xFFFF_FFFFu32,
            r.state64() == 0xFFFF_FFFF_FFFF_FFFFu64,
    {
        DualCrc { inverted_crc32: 0xFFFF_FFFF, inverted_crc64: 0xFFFF_FFFF_FFFF_FFFF }
    }

    /// Takes in the bytes of `data`, eight at a time in both registers and
    /// then byte by byte. The library keeps no global state, so the slice
    /// tables are built afresh on each call.
    pub fn update(&mut self, data: &[u8])
        ensures
            final(self).state32() == crc32_fold(old(self).state32(), data@),
            final(self).state64() == crc64_fold(old(self).state64(), data@),
    {
        let t32 = crc32_slices();
        let t64 = crc64_slices();
        let c32 = self.inverted_crc32;
        let c64 = self.inverted_crc64;
        let mut pos: usize = 0;
        let n: usize = data.len();
        let mut remaining: usize = n;
        assert(data@.subrange(0, 0).len() == 0);
        while remaining >= 8
            invariant
                is_crc32_table(t32@),
                is_crc64_table(t64@),
                pos + remaining == n,
            n == data@.len(),
                self.inverted_crc32 == crc32_fold(c32, data@.subrange(0, pos as int)),
                self.inverted_crc64 == crc64_fold(c64, data@.subrange(0, pos as int)),
            decreases remaining,
        {
            self.inverted_crc32 = update_inverted_crc32_8bytes(
                &t32,
                self.inverted_crc32,
                data,
                pos,
            );
            self.inverted_crc64 = update_inverted_crc64_8bytes(
                &t64,
                self.inverted_crc64,
                data,
                pos,
            );
            proof {
                let s = data@;
                let p = pos as int;
                lemma_crc32_fold_append(c32, s.subrange(0, p), s.subrange(p, p + 8));
                lemma_crc64_fold_append(c64, s.subrange(0, p), s.subrange(p, p + 8));
                assert(s.subrange(0, p) + s.subrange(p, p + 8) =~= s.subrange(0, p + 8));
            }
            pos = pos + 8;
            remaining = remaining - 8;
        }
        while remaining > 0
            invariant
                is_crc32_table(t32@),
                is_crc64_table(t64@),
                pos + remaining == n,
            n == data@.len(),
                self.inverted_crc32 == crc32_fold(c32, data@.subrange(0, pos as int)),
                self.inverted_crc64 == crc64_fold(c64, data@.subrange(0, pos as int)),
            decreases remaining,
        {
            self.inverted_crc32 = update_inverted_crc32(&t32[0], self.inverted_crc32, data[pos]);
            self.inverted_crc64 = update_inverted_crc64(&t64[0], self.inverted_crc64, data[pos]);
            proof {
                assert(data@.subrange(0, pos + 1).drop_last() =~= data@.subrange(0, pos as int));
            }
            pos = pos + 1;
            remaining = remaining - 1;
        }
        assert(data@.subrange(0, pos as int) =~= data@);
    }

    /// Takes in the run of zero bytes that `zeros` stands for, at constant
    /// cost whatever its length.
    pub fn update_with_zeros(&mut self, zeros: &Zeros)
        ensures
            final(self).state32() == crc32_fold(old(self).state32(), zero_bytes(zeros.count())),
            final(self).state64() == crc64_fold(old(self).state64(), zero_bytes(zeros.count())),
    {
        self.inverted_crc32 = zeros.apply_to_inverted_crc32(self.inverted_crc32);
        self.inverted_crc64 = zeros.apply_to_inverted_crc64(self.inverted_crc64);
    }
}

impl Default for DualCrc {
    fn default() -> (r: Self)
        ensures
            r.state32() == 0xFFFF_FFFFu32,
            r.state64() == 0xFFFF_FFFF_FFFF_FFFFu64,
    {
        DualCrc::new()
    }
}

/// Taking in `a` and then `b` gives the checksums of `a` followed by `b`.
pub proof fn lemma_append_linearity(a: Seq<u8>, b: Seq<u8>)
    ensures
        crc32_fold(0xFFFF_FFFFu32, a + b) == crc32_fold(crc32_fold(0xFFFF_FFFFu32, a), b),
        crc64_fold(0xFFFF_FFFF_FFFF_FFFFu64, a + b) == crc64_fold(
            crc64_fold(0xFFFF_FFFF_FFFF_FFFFu64, a),
            b,
        ),
        crc32c(a + b) == !crc32_fold(crc32_fold(0xFFFF_FFFFu32, a), b),
        crc64xz(a + b) == !crc64_fold(crc64_fold(0xFFFF_FFFF_FFFF_FFFFu64, a), b),
{
    lemma_crc32_fold_append(0xFFFF_FFFFu32, a, b);
    lemma_crc64_fold_append(0xFFFF_FFFF_FFFF_FFFFu64, a, b);
}

} // verus!
