//! Both checksums over a window of fixed length that moves along the data
//! one byte at a time, at a cost that does not depend on the window's
//! length.
use vstd::prelude::*;

use crate::crc::{
    crc32_byte, crc32_fold, crc32c, crc64_byte, crc64_fold, crc64xz, lemma_crc32_fold_append,
    lemma_crc32_fold_xor, lemma_crc32_fold_zeros, lemma_crc64_fold_append, lemma_crc64_fold_xor,
    lemma_crc64_fold_zeros, lemma_shifts32_add, lemma_shifts32_linear, lemma_shifts64_add,
    lemma_shifts64_linear, shifts32, shifts64, zero_bytes,
};
use crate::dual_crc::DualCrc;
use crate::gf::{lemma_xor32, lemma_xor64};
use crate::tables::{
    crc32_row0, crc64_row0, is_crc32_row0, is_crc64_row0, update_inverted_crc32,
    update_inverted_crc64,
};
use crate::zeros::Zeros;

verus! {

/// What a byte `b` adds to the CRC-32C checksum `w` bytes before the end of
/// the data: the checksum of `b` and `w` zero bytes, less that of the zeros.
pub open spec fn removal32(w: nat, b: int) -> u32 {
    crc32c(seq![b as u8] + zero_bytes(w)) ^ crc32c(zero_bytes(w))
}

/// A single byte folds in as one byte step.
proof fn lemma_crc32_fold_one(c: u32, b: u8)
    ensures
        crc32_fold(c, seq![b]) == crc32_byte(c, b),
{
    assert(seq![b].drop_last() =~= Seq::<u8>::empty());
    assert(crc32_fold(c, Seq::<u8>::empty()) == c);
    assert(seq![b].last() == b);
}

/// The removal entry of `b` is `b`'s register contribution after `w` more
/// bytes.
proof fn lemma_removal32(w: nat, b: u8)
    ensures
        removal32(w, b as int) == shifts32(
            crc32_byte(0xFFFF_FFFFu32, b) ^ 0xFFFF_FFFFu32,
            8 * w,
        ),
{
    let a = crc32_byte(0xFFFF_FFFFu32, b);
    lemma_crc32_fold_append(0xFFFF_FFFFu32, seq![b], zero_bytes(w));
    lemma_crc32_fold_one(0xFFFF_FFFFu32, b);
    lemma_crc32_fold_zeros(a, w);
    lemma_crc32_fold_zeros(0xFFFF_FFFFu32, w);
    lemma_shifts32_linear(a, 0xFFFF_FFFFu32, 8 * w);
    lemma_xor32(shifts32(a, 8 * w), shifts32(0xFFFF_FFFFu32, 8 * w), 0, 0);
    assert(b as int as u8 == b);
}

/// One roll of a CRC-32C window: taking in `byte` and removing the first
/// byte's contribution gives the register of the window moved on by one.
pub proof fn lemma_roll32(w: Seq<u8>, byte: u8)
    requires
        w.len() >= 1,
    ensures
        crc32_byte(crc32_fold(0xFFFF_FFFFu32, w), byte) ^ removal32(w.len(), w[0] as int)
            == crc32_fold(0xFFFF_FFFFu32, w.subrange(1, w.len() as int).push(byte)),
{
    let n = w.len();
    let u = w.subrange(1, n as int);
    let a = crc32_byte(0xFFFF_FFFFu32, w[0]);
    let d = a ^ 0xFFFF_FFFFu32;
    assert(w =~= seq![w[0]] + u);
    lemma_crc32_fold_append(0xFFFF_FFFFu32, seq![w[0]], u);
    lemma_crc32_fold_one(0xFFFF_FFFFu32, w[0]);
    lemma_xor32(0xFFFF_FFFFu32, a, 0, 0);
    lemma_xor32(a, 0xFFFF_FFFFu32, 0, 0);
    lemma_crc32_fold_xor(0xFFFF_FFFFu32, d, u);
    let f = crc32_fold(0xFFFF_FFFFu32, u);
    let s = shifts32(d, 8 * u.len());
    let x = byte as u32;
    lemma_xor32(f, s, x, 0);
    lemma_shifts32_linear(f ^ x, s, 8);
    lemma_shifts32_add(d, 8 * u.len(), 8);
    assert(8 * u.len() + 8 == 8 * n);
    assert(u.push(byte).drop_last() =~= u);
    lemma_removal32(n, w[0]);
    lemma_xor32(shifts32(f ^ x, 8), shifts32(d, 8 * n), 0, 0);
}

/// What a byte `b` adds to the CRC-64/XZ checksum `w` bytes before the end of
/// the data: the checksum of `b` and `w` zero bytes, less that of the zeros.
pub open spec fn removal64(w: nat, b: int) -> u64 {
    crc64xz(seq![b as u8] + zero_bytes(w)) ^ crc64xz(zero_bytes(w))
}

/// A single byte folds in as one byte step.
proof fn lemma_crc64_fold_one(c: u64, b: u8)
    ensures
        crc64_fold(c, seq![b]) == crc64_byte(c, b),
{
    assert(seq![b].drop_last() =~= Seq::<u8>::empty());
    assert(crc64_fold(c, Seq::<u8>::empty()) == c);
    assert(seq![b].last() == b);
}

/// The removal entry of `b` is `b`'s register contribution after `w` more
/// bytes.
proof fn lemma_removal64(w: nat, b: u8)
    ensures
        removal64(w, b as int) == shifts64(
            crc64_byte(0xFFFF_FFFF_FFFF_FFFFu64, b) ^ 0xFFFF_FFFF_FFFF_FFFFu64,
            8 * w,
        ),
{
    let a = crc64_byte(0xFFFF_FFFF_FFFF_FFFFu64, b);
    lemma_crc64_fold_append(0xFFFF_FFFF_FFFF_FFFFu64, seq![b], zero_bytes(w));
    lemma_crc64_fold_one(0xFFFF_FFFF_FFFF_FFFFu64, b);
    lemma_crc64_fold_zeros(a, w);
    lemma_crc64_fold_zeros(0xFFFF_FFFF_FFFF_FFFFu64, w);
    lemma_shifts64_linear(a, 0xFFFF_FFFF_FFFF_FFFFu64, 8 * w);
    lemma_xor64(shifts64(a, 8 * w), shifts64(0xFFFF_FFFF_FFFF_FFFFu64, 8 * w), 0, 0);
    assert(b as int as u8 == b);
}

/// One roll of a CRC-64/XZ window: taking in `byte` and removing the first
/// byte's contribution gives the register of the window moved on by one.
pub proof fn lemma_roll64(w: Seq<u8>, byte: u8)
    requires
        w.len() >= 1,
    ensures
        crc64_byte(crc64_fold(0xFFFF_FFFF_FFFF_FFFFu64, w), byte) ^ removal64(w.len(), w[0] as int)
            == crc64_fold(0xFFFF_FFFF_FFFF_FFFFu64, w.subrange(1, w.len() as int).push(byte)),
{
    let n = w.len();
    let u = w.subrange(1, n as int);
    let a = crc64_byte(0xFFFF_FFFF_FFFF_FFFFu64, w[0]);
    let d = a ^ 0xFFFF_FFFF_FFFF_FFFFu64;
    assert(w =~= seq![w[0]] + u);
    lemma_crc64_fold_append(0xFFFF_FFFF_FFFF_FFFFu64, seq![w[0]], u);
    lemma_crc64_fold_one(0xFFFF_FFFF_FFFF_FFFFu64, w[0]);
    lemma_xor64(0xFFFF_FFFF_FFFF_FFFFu64, a, 0, 0);
    lemma_xor64(a, 0xFFFF_FFFF_FFFF_FFFFu64, 0, 0);
    lemma_crc64_fold_xor(0xFFFF_FFFF_FFFF_FFFFu64, d, u);
    let f = crc64_fold(0xFFFF_FFFF_FFFF_FFFFu64, u);
    let s = shifts64(d, 8 * u.len());
    let x = byte as u64;
    lemma_xor64(f, s, x, 0);
    lemma_shifts64_linear(f ^ x, s, 8);
    lemma_shifts64_add(d, 8 * u.len(), 8);
    assert(8 * u.len() + 8 == 8 * n);
    assert(u.push(byte).drop_last() =~= u);
    lemma_removal64(n, w[0]);
    lemma_xor64(shifts64(f ^ x, 8), shifts64(d, 8 * n), 0, 0);
}

/// CRC-32C and CRC-64/XZ checksums of the last `window_size` bytes seen.
#[derive(Clone, Debug)]
pub struct RollingDualCrc {
    inverted_crc32: u32,
    inverted_crc64: u64,
    start_pos: usize,
    window_size: usize,
    data: Vec<u8>,
    bytes32: Vec<u32>,
    bytes64: Vec<u64>,
    table32: Vec<u32>,
    table64: Vec<u64>,
}

impl RollingDualCrc {
    /// Where byte `i` of the window lies in the circular buffer.
    spec fn slot(&self, i: int) -> int {
        if self.start_pos + i < self.window_size {
            self.start_pos + i
        } else {
            self.start_pos + i - self.window_size
        }
    }

    /// The bytes of the window, oldest first.
    pub closed spec fn window(&self) -> Seq<u8> {
        Seq::new(self.window_size as nat, |i: int| self.data@[self.slot(i)])
    }

    /// The inverted CRC-32C register of the window.
    pub closed spec fn state32(&self) -> u32 {
        self.inverted_crc32
    }

    /// The inverted CRC-64/XZ register of the window.
    pub closed spec fn state64(&self) -> u64 {
        self.inverted_crc64
    }

    pub closed spec fn wf(&self) -> bool {
        &&& self.window_size >= 1
        &&& self.data@.len() == self.window_size
        &&& self.start_pos < self.window_size
        &&& is_crc32_row0(self.bytes32@)
        &&& is_crc64_row0(self.bytes64@)
        &&& self.table32@.len() == 256
        &&& self.table64@.len() == 256
        &&& forall|b: int|
            0 <= b < 256 ==> #[trigger] self.table32@[b] == removal32(self.window_size as nat, b)
        &&& forall|b: int|
            0 <= b < 256 ==> #[trigger] self.table64@[b] == removal64(self.window_size as nat, b)
        &&& self.inverted_crc32 == crc32_fold(0xFFFF_FFFFu32, self.window())
        &&& self.inverted_crc64 == crc64_fold(0xFFFF_FFFF_FFFF_FFFFu64, self.window())
    }

    /// Both checksums of the window.
    pub fn get(&self) -> (r: (u32, u64))
        requires
            self.wf(),
        ensures
            r == (!self.state32(), !self.state64()),
            r == (crc32c(self.window()), crc64xz(self.window())),
    {
        (!self.inverted_crc32, !self.inverted_crc64)
    }

    /// The CRC-32C checksum of the window.
    pub fn get32(&self) -> (r: u32)
        requires
            self.wf(),
        ensures
            r == !self.state32(),
            r == crc32c(self.window()),
    {
        !self.inverted_crc32
    }

    /// The CRC-64/XZ checksum of the window.
    pub fn get64(&self) -> (r: u64)
        requires
            self.wf(),
        ensures
            r == !self.state64(),
            r == crc64xz(self.window()),
    {
        !self.inverted_crc64
    }

    /// A window over `initial_window`, whose length the window keeps from
    /// then on.
    pub fn new(initial_window: &[u8]) -> (r: Self)
        requires
            initial_window@.len() >= 1,
        ensures
            r.wf(),
            r.window() == initial_window@,
    {
        let window_size = initial_window.len();
        let (crc32, crc64) = DualCrc::checksum(initial_window);
        let bytes32 = crc32_row0();
        let bytes64 = crc64_row0();
        let (table32, table64) = Self::build_tables(&bytes32, &bytes64, window_size);
        let data = vstd::slice::slice_to_vec(initial_window);
        let r = RollingDualCrc {
            inverted_crc32: !crc32,
            inverted_crc64: !crc64,
            start_pos: 0,
            window_size,
            data,
            bytes32,
            bytes64,
            table32,
            table64,
        };
        proof {
            assert(r.window() =~= initial_window@);
            lemma_xor32(r.inverted_crc32, 0, 0, 0);
            lemma_xor64(r.inverted_crc64, 0, 0, 0);
            lemma_xor32(crc32_fold(0xFFFF_FFFFu32, initial_window@), 0, 0, 0);
            lemma_xor64(crc64_fold(0xFFFF_FFFF_FFFF_FFFFu64, initial_window@), 0, 0, 0);
        }
        r
    }

    /// Moves the window on by one byte: `byte` comes in at the end and the
    /// oldest byte leaves, in constant time.
    pub fn roll(&mut self, byte: u8)
        requires
            old(self).wf(),
        ensures
            final(self).wf(),
            final(self).window() == old(self).window().subrange(
                1,
                old(self).window().len() as int,
            ).push(byte),
    {
        let ghost w = self.window();
        let leaving = self.data[self.start_pos];
        proof {
            assert(w[0] == leaving);
            lemma_roll32(w, byte);
            lemma_roll64(w, byte);
        }
        self.inverted_crc32 = update_inverted_crc32(&self.bytes32, self.inverted_crc32, byte)
            ^ self.table32[leaving as usize];
        self.inverted_crc64 = update_inverted_crc64(&self.bytes64, self.inverted_crc64, byte)
            ^ self.table64[leaving as usize];
        self.data.set(self.start_pos, byte);
        self.start_pos = self.start_pos + 1;
        if self.start_pos == self.window_size {
            self.start_pos = 0;
        }
        proof {
            assert(self.window() =~= w.subrange(1, w.len() as int).push(byte));
        }
    }

    /// Moves the window on by each byte of `data` in turn.
    pub fn roll_slice(&mut self, data: &[u8])
        requires
            old(self).wf(),
        ensures
            final(self).wf(),
            final(self).window() == (old(self).window() + data@).subrange(
                data@.len() as int,
                (data@.len() + old(self).window().len()) as int,
            ),
    {
        let ghost w = self.window();
        let mut i: usize = 0;
        assert(w + data@.subrange(0, 0) =~= w);
        while i < data.len()
            invariant
                self.wf(),
                i <= data@.len(),
                self.window() == (w + data@.subrange(0, i as int)).subrange(
                    i as int,
                    (i + w.len()) as int,
                ),
            decreases data@.len() - i,
        {
            let ghost before = self.window();
            self.roll(data[i]);
            proof {
                let lhs = (w + data@.subrange(0, i + 1)).subrange(i + 1, (i + 1 + w.len()) as int);
                assert(self.window() =~= lhs);
            }
            i = i + 1;
        }
        assert(data@.subrange(0, i as int) =~= data@);
    }

    /// The removal tables of a window of `window_size` bytes.
    fn build_tables(bytes32: &Vec<u32>, bytes64: &Vec<u64>, window_size: usize) -> (r: (
        Vec<u32>,
        Vec<u64>,
    ))
        requires
            is_crc32_row0(bytes32@),
            is_crc64_row0(bytes64@),
        ensures
            r.0@.len() == 256,
            r.1@.len() == 256,
            forall|b: int| 0 <= b < 256 ==> #[trigger] r.0@[b] == removal32(window_size as nat, b),
            forall|b: int| 0 <= b < 256 ==> #[trigger] r.1@[b] == removal64(window_size as nat, b),
    {
        let mut table32: Vec<u32> = Vec::new();
        let mut table64: Vec<u64> = Vec::new();
        let zeros = Zeros::new(window_size);
        let mut zero_crc = DualCrc::new();
        zero_crc.update_with_zeros(&zeros);
        let zero32 = zero_crc.get32();
        let zero64 = zero_crc.get64();
        let mut byte: u32 = 0;
        while byte < 256
            invariant
                byte <= 256,
                zeros.count() == window_size,
                is_crc32_row0(bytes32@),
                is_crc64_row0(bytes64@),
                zero32 == crc32c(zero_bytes(window_size as nat)),
                zero64 == crc64xz(zero_bytes(window_size as nat)),
                table32@.len() == byte,
                table64@.len() == byte,
                forall|b: int|
                    0 <= b < byte ==> #[trigger] table32@[b] == removal32(window_size as nat, b),
                forall|b: int|
                    0 <= b < byte ==> #[trigger] table64@[b] == removal64(window_size as nat, b),
            decreases 256 - byte,
        {
            let b = byte as u8;
            let alone32 = update_inverted_crc32(bytes32, 0xFFFF_FFFF, b);
            let alone64 = update_inverted_crc64(bytes64, 0xFFFF_FFFF_FFFF_FFFF, b);
            let byte32 = zeros.apply_to_inverted_crc32(alone32);
            let byte64 = zeros.apply_to_inverted_crc64(alone64);
            proof {
                let z = zero_bytes(window_size as nat);
                lemma_crc32_fold_one(0xFFFF_FFFFu32, b);
                lemma_crc64_fold_one(0xFFFF_FFFF_FFFF_FFFFu64, b);
                lemma_crc32_fold_append(0xFFFF_FFFFu32, seq![b], z);
                lemma_crc64_fold_append(0xFFFF_FFFF_FFFF_FFFFu64, seq![b], z);
                assert(b as int == byte as int);
            }
            table32.push(!byte32 ^ zero32);
            table64.push(!byte64 ^ zero64);
            byte = byte + 1;
        }
        (table32, table64)
    }
}

} // verus!
