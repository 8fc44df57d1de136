//! The per-block checksum summary of the old file.
//!
//! The old file is partitioned into contiguous blocks of `block_size` bytes
//! (the last block may be shorter). A [`Signature`] holds one
//! [`SignatureEntry`] per block — its index, weak checksum and strong
//! checksum — together with the block size and the old file's length, which a
//! reader needs to recover the block layout. [`build_signature`] is a pure
//! function of its inputs: its contract pins every field of the result.

use vstd::arithmetic::div_mod::{
    lemma_div_by_multiple, lemma_div_is_ordered, lemma_div_multiples_vanish_fancy,
};
use vstd::prelude::*;
use vstd::slice::slice_subrange;

use crate::checksum::{adler32_of, md4_of, StrongChecksum, window_checksum};
use crate::SyncError;

verus! {

/// The number of blocks a file of `file_len` bytes splits into:
/// `file_len / block_size`, rounded up.
pub open spec fn num_blocks(file_len: int, block_size: int) -> int {
    (file_len + block_size - 1) / block_size
}

/// The length of block `k`: `block_size`, except for a shorter last block.
pub open spec fn block_len(file_len: int, block_size: int, k: int) -> int {
    if file_len - k * block_size < block_size {
        file_len - k * block_size
    } else {
        block_size
    }
}

/// The bytes of block `k` of `old`.
pub open spec fn block_at(old: Seq<u8>, block_size: int, k: int) -> Seq<u8> {
    old.subrange(
        k * block_size,
        k * block_size + block_len(old.len() as int, block_size, k),
    )
}

/// Every block of a file starts inside it, is non-empty, at most
/// `block_size` long, and ends inside the file.
pub proof fn lemma_block_in_range(file_len: int, block_size: int, k: int)
    requires
        block_size > 0,
        file_len >= 0,
        0 <= k < num_blocks(file_len, block_size),
    ensures
        k * block_size < file_len,
        0 < block_len(file_len, block_size, k) <= block_size,
        k * block_size + block_len(file_len, block_size, k) <= file_len,
{
    if k * block_size >= file_len {
        // Then all blocks fit below k, contradicting k < num_blocks.
        lemma_div_is_ordered(file_len + block_size - 1, k * block_size + block_size - 1, block_size);
        lemma_div_multiples_vanish_fancy(k, block_size - 1, block_size);
        assert(block_size * k == k * block_size) by (nonlinear_arith);
        assert(num_blocks(file_len, block_size) <= k);
    }
}

/// The block layout is exact: block `k` covers `[k * block_size, file_len)`
/// exactly when it is the last block, and the blocks tile the file.
pub proof fn lemma_num_blocks_exact(file_len: int, block_size: int, k: int)
    requires
        block_size > 0,
        k >= 0,
        k == 0 ==> file_len == 0,
        k > 0 ==> (k - 1) * block_size < file_len,
        file_len <= k * block_size,
    ensures
        num_blocks(file_len, block_size) == k,
{
    if k == 0 {
        lemma_div_multiples_vanish_fancy(0, block_size - 1, block_size);
    } else {
        // file_len = (k - 1) * block_size + r with 0 < r <= block_size,
        // so file_len + block_size - 1 = k * block_size + (r - 1).
        let r = file_len - (k - 1) * block_size;
        assert((k - 1) * block_size == k * block_size - block_size) by (nonlinear_arith);
        assert(0 < r <= block_size);
        lemma_div_multiples_vanish_fancy(k, r - 1, block_size);
        assert(block_size * k == k * block_size) by (nonlinear_arith);
    }
}

/// One block of the old file, identified by its position in the block
/// sequence, its byte offset, and its length in bytes.
#[derive(Clone, Copy, Debug, PartialEq, Eq, Structural)]
pub struct FileBlock {
    /// Position of the block in the block sequence.
    pub index: u64,
    /// Byte offset of the block in the old file.
    pub offset: u64,
    /// Length of the block in bytes.
    pub length: u32,
}

/// The ghost model of a signature entry.
#[verifier::ext_equal]
pub ghost struct EntryModel {
    pub block_index: int,
    pub weak: u32,
    pub strong: Seq<u8>,
}

/// The ghost model of a signature.
#[verifier::ext_equal]
pub ghost struct SigModel {
    pub block_size: int,
    pub file_len: int,
    pub entries: Seq<EntryModel>,
}

impl SigModel {
    /// Structural well-formedness: a positive block size, one entry per
    /// block, entries numbered in order.
    pub open spec fn wf(&self) -> bool {
        &&& self.block_size > 0
        &&& self.file_len >= 0
        &&& self.entries.len() == num_blocks(self.file_len, self.block_size)
        &&& forall|k: int|
            0 <= k < self.entries.len() ==> (#[trigger] self.entries[k]).block_index == k
        &&& forall|k: int|
            0 <= k < self.entries.len() ==> (#[trigger] self.entries[k]).strong.len() == 16
    }
}

/// The signature a given old file and block size determine: entry `k` holds
/// the weak and the strong checksum of block `k`.
pub open spec fn sig_of(old: Seq<u8>, block_size: int) -> SigModel {
    SigModel {
        block_size: block_size,
        file_len: old.len() as int,
        entries: Seq::new(
            num_blocks(old.len() as int, block_size) as nat,
            |k: int|
                EntryModel {
                    block_index: k,
                    weak: adler32_of(block_at(old, block_size, k)),
                    strong: md4_of(block_at(old, block_size, k)),
                },
        ),
    }
}

/// One entry of a [`Signature`]: the checksum pair of one block.
#[derive(Debug)]
pub struct SignatureEntry {
    /// Position of the block this entry describes.
    pub block_index: u64,
    /// The weak (rolling) checksum of the block's bytes.
    pub weak: u32,
    /// The strong checksum of the block's bytes.
    pub strong: StrongChecksum,
}

impl View for SignatureEntry {
    type V = EntryModel;

    open spec fn view(&self) -> EntryModel {
        EntryModel {
            block_index: self.block_index as int,
            weak: self.weak,
            strong: self.strong.digest@,
        }
    }
}

/// The checksum summary of an old file: one entry per block, the block size
/// the blocks were cut with, and the old file's total length.
#[derive(Debug)]
pub struct Signature {
    /// The block size the old file was partitioned with.
    pub block_size: u32,
    /// The old file's length in bytes.
    pub file_len: u64,
    /// One entry per block, ordered by block index.
    pub entries: Vec<SignatureEntry>,
}

impl View for Signature {
    type V = SigModel;

    open spec fn view(&self) -> SigModel {
        SigModel {
            block_size: self.block_size as int,
            file_len: self.file_len as int,
            entries: self.entries@.map_values(|e: SignatureEntry| e@),
        }
    }
}

impl Signature {
    /// The exec-level face of [`SigModel::wf`].
    pub open spec fn wf(&self) -> bool {
        self@.wf()
    }

    /// The layout of block `k`, derived from the signature's block size and
    /// file length.
    pub fn nth_block(&self, k: usize) -> (r: FileBlock)
        requires
            self.wf(),
            k < self@.entries.len(),
        ensures
            r.index == k,
            r.offset == k * self@.block_size,
            r.length == block_len(self@.file_len, self@.block_size, k as int),
    {
        proof {
            lemma_block_in_range(self@.file_len, self@.block_size, k as int);
        }
        let offset: u64 = (k as u64) * (self.block_size as u64);
        let rem: u64 = self.file_len - offset;
        let length: u32 = if rem < self.block_size as u64 {
            rem as u32
        } else {
            self.block_size
        };
        FileBlock { index: k as u64, offset, length }
    }
}

/// The chunk size of the legacy per-chunk digest listing.
pub const SUM_CHUNK_SIZE: u32 = 500;

/// The strong checksum of each [`SUM_CHUNK_SIZE`]-byte chunk of `bytes`,
/// rendered in lowercase hexadecimal, in file order; the last chunk may be
/// shorter.
pub fn get_sum_chunks(bytes: &[u8]) -> (r: Vec<String>)
    ensures
        r@.len() == num_blocks(bytes@.len() as int, SUM_CHUNK_SIZE as int),
        forall|j: int|
            0 <= j < r@.len() ==> (#[trigger] r@[j])@ == crate::checksum::hex_of(
                md4_of(block_at(bytes@, SUM_CHUNK_SIZE as int, j)),
            ),
{
    let n: usize = bytes.len();
    let bs: usize = SUM_CHUNK_SIZE as usize;
    let mut sums: Vec<String> = Vec::new();
    let mut offset: usize = 0;
    let mut k: usize = 0;
    while offset < n
        invariant
            bs == SUM_CHUNK_SIZE as int,
            n == bytes@.len(),
            offset as int == (if k * bs <= n { k * bs } else { n as int }),
            offset <= n,
            k == 0 ==> offset == 0,
            k > 0 ==> (k - 1) * bs < n,
            sums@.len() == k,
            k <= num_blocks(n as int, bs as int),
            forall|j: int|
                0 <= j < k ==> (#[trigger] sums@[j])@ == crate::checksum::hex_of(
                    md4_of(block_at(bytes@, bs as int, j)),
                ),
        decreases n - offset,
    {
        assert(offset as int == k * bs);
        let rem = n - offset;
        let len = if rem < bs { rem } else { bs };
        assert(len == block_len(n as int, bs as int, k as int));
        let s = crate::checksum::strong_checksum(slice_subrange(bytes, offset, offset + len));
        sums.push(s);
        proof {
            assert(k < num_blocks(n as int, bs as int)) by {
                assert((k + 1) * (bs as int) == k * bs + bs) by (nonlinear_arith);
                lemma_div_is_ordered((k + 1) * (bs as int), n as int + bs - 1, bs as int);
                lemma_div_by_multiple(k as int + 1, bs as int);
            }
            assert(bytes@.subrange(offset as int, offset + len) == block_at(
                bytes@,
                bs as int,
                k as int,
            ));
        }
        offset = offset + len;
        proof {
            assert(k <= k * bs) by (nonlinear_arith)
                requires bs >= 1, k >= 0;
        }
        k = k + 1;
        proof {
            assert(k * bs == (k - 1) * bs + bs) by (nonlinear_arith);
        }
    }
    proof {
        lemma_num_blocks_exact(n as int, bs as int, k as int);
    }
    sums
}

/// Builds the [`Signature`] of `old` with the given block size.
///
/// Fails with [`SyncError::InvalidConfiguration`] exactly when `block_size`
/// is zero. Otherwise the result is the signature `old` and `block_size`
/// determine — [`sig_of`] — so identical inputs always yield an identical
/// signature. An empty `old` yields a signature with zero entries.
pub fn build_signature(old: &[u8], block_size: u32) -> (r: Result<Signature, SyncError>)
    ensures
        r is Err <==> block_size == 0,
        r is Err ==> r == Err::<Signature, SyncError>(SyncError::InvalidConfiguration),
        r matches Ok(sig) ==> sig@ == sig_of(old@, block_size as int) && sig.wf(),
{
    if block_size == 0 {
        return Err(SyncError::InvalidConfiguration);
    }
    let n: usize = old.len();
    let bs: usize = block_size as usize;
    let ghost target = sig_of(old@, block_size as int);
    let mut entries: Vec<SignatureEntry> = Vec::new();
    let mut offset: usize = 0;
    let mut k: usize = 0;
    while offset < n
        invariant
            bs == block_size as int,
            block_size > 0,
            n == old@.len(),
            target == sig_of(old@, block_size as int),
            offset as int == (if k * bs <= n { k * bs } else { n as int }),
            offset <= n,
            k == 0 ==> offset == 0,
            k > 0 ==> (k - 1) * bs < n,
            entries@.len() == k,
            forall|j: int| 0 <= j < k ==> #[trigger] entries@[j]@ == target.entries[j],
            forall|j: int| 0 <= j < k ==> (#[trigger] entries@[j])@.strong.len() == 16,
        decreases n - offset,
    {
        assert(offset as int == k * bs);
        let rem = n - offset;
        let len = if rem < bs { rem } else { bs };
        assert(len == block_len(n as int, bs as int, k as int));
        let rc = window_checksum(old, offset, len);
        let weak = rc.value();
        let strong = StrongChecksum::compute(slice_subrange(old, offset, offset + len));
        proof {
            assert(rc.window() == block_at(old@, bs as int, k as int));
        }
        entries.push(SignatureEntry { block_index: k as u64, weak, strong });
        proof {
            assert(k < num_blocks(n as int, bs as int)) by {
                // offset == k * bs < n, so k + 1 many blocks fit at least.
                assert((k + 1) * (bs as int) == k * bs + bs) by (nonlinear_arith);
                lemma_div_is_ordered((k + 1) * (bs as int), n as int + bs - 1, bs as int);
                lemma_div_by_multiple(k as int + 1, bs as int);
            }
            assert(entries@[k as int]@ == target.entries[k as int]);
        }
        offset = offset + len;
        proof {
            assert(k <= k * bs) by (nonlinear_arith)
                requires bs >= 1, k >= 0;
        }
        k = k + 1;
        proof {
            assert(k * bs == (k - 1) * bs + bs) by (nonlinear_arith);
        }
    }
    proof {
        lemma_num_blocks_exact(n as int, bs as int, k as int);
        assert(entries@.map_values(|e: SignatureEntry| e@) =~= target.entries);
    }
    let sig = Signature { block_size, file_len: n as u64, entries };
    proof {
        assert(sig@ =~= target);
    }
    Ok(sig)
}

} // verus!
