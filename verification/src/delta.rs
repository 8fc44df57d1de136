//! The reconstruction program and its replay.
//!
//! A [`Delta`] is an ordered program of [`Operation`]s: `Copy` takes one
//! block of the old file, `Literal` carries bytes of the new file verbatim.
//! [`reconstruct`] replays a delta against the old file's bytes; its contract
//! says exactly which bytes come out — the concatenation the spec function
//! [`resolve_ops`] describes — and exactly when it refuses instead.

use vstd::arithmetic::div_mod::{
    lemma_div_by_multiple, lemma_div_is_ordered,
};
use vstd::prelude::*;

use crate::signature::{block_at, block_len, lemma_block_in_range, num_blocks};
use crate::SyncError;

verus! {

/// The ghost model of one delta operation.
#[verifier::ext_equal]
pub ghost enum OpModel {
    Copy { block_index: int },
    Literal { bytes: Seq<u8> },
}

/// One instruction of a delta.
#[derive(Debug)]
pub enum Operation {
    /// Take the bytes of the old file's block with this index.
    Copy {
        /// Index of the old file's block to copy.
        block_index: u64,
    },
    /// Take these bytes verbatim; adjacent literal bytes are coalesced into
    /// one run.
    Literal {
        /// The literal bytes.
        bytes: Vec<u8>,
    },
}

impl View for Operation {
    type V = OpModel;

    open spec fn view(&self) -> OpModel {
        match self {
            Operation::Copy { block_index } => OpModel::Copy {
                block_index: *block_index as int,
            },
            Operation::Literal { bytes } => OpModel::Literal { bytes: bytes@ },
        }
    }
}

/// The ghost model of a delta.
#[verifier::ext_equal]
pub ghost struct DeltaModel {
    pub block_size: int,
    pub old_len: int,
    pub ops: Seq<OpModel>,
}

/// An ordered reconstruction program, together with the block size and old
/// file length it was computed against, so a mismatched old file is detected
/// before reconstruction.
#[derive(Debug)]
pub struct Delta {
    /// The block size the signature was built with.
    pub block_size: u32,
    /// The length of the old file the signature summarized.
    pub old_len: u64,
    /// The operations, in output order.
    pub ops: Vec<Operation>,
}

impl View for Delta {
    type V = DeltaModel;

    open spec fn view(&self) -> DeltaModel {
        DeltaModel {
            block_size: self.block_size as int,
            old_len: self.old_len as int,
            ops: self.ops@.map_values(|op: Operation| op@),
        }
    }
}

/// The bytes one operation resolves to against `old`.
pub open spec fn resolve_op(old: Seq<u8>, block_size: int, op: OpModel) -> Seq<u8> {
    match op {
        OpModel::Copy { block_index } => block_at(old, block_size, block_index),
        OpModel::Literal { bytes } => bytes,
    }
}

/// The bytes a whole operation sequence resolves to against `old`: the
/// concatenation, in order, of what each operation resolves to.
pub open spec fn resolve_ops(old: Seq<u8>, block_size: int, ops: Seq<OpModel>) -> Seq<u8>
    decreases ops.len(),
{
    if ops.len() == 0 {
        Seq::empty()
    } else {
        resolve_ops(old, block_size, ops.drop_last()) + resolve_op(old, block_size, ops.last())
    }
}

/// Resolution distributes over concatenation of operation sequences.
pub proof fn lemma_resolve_ops_concat(old: Seq<u8>, block_size: int, a: Seq<OpModel>, b: Seq<OpModel>)
    ensures
        resolve_ops(old, block_size, a + b) == resolve_ops(old, block_size, a)
            + resolve_ops(old, block_size, b),
    decreases b.len(),
{
    if b.len() == 0 {
        assert(a + b =~= a);
        assert(resolve_ops(old, block_size, a) + Seq::<u8>::empty() =~= resolve_ops(
            old,
            block_size,
            a,
        ));
    } else {
        lemma_resolve_ops_concat(old, block_size, a, b.drop_last());
        assert((a + b).drop_last() =~= a + b.drop_last());
        assert((a + b).last() == b.last());
        assert(resolve_ops(old, block_size, a) + resolve_ops(old, block_size, b.drop_last())
            + resolve_op(old, block_size, b.last()) =~= resolve_ops(old, block_size, a)
            + resolve_ops(old, block_size, b));
    }
}

/// A single operation resolves to its own bytes.
pub proof fn lemma_resolve_singleton(old: Seq<u8>, block_size: int, op: OpModel)
    ensures
        resolve_ops(old, block_size, seq![op]) == resolve_op(old, block_size, op),
{
    assert(seq![op].drop_last() =~= Seq::<OpModel>::empty());
    assert(seq![op].last() == op);
    assert(resolve_ops(old, block_size, Seq::<OpModel>::empty()) == Seq::<u8>::empty());
    assert(resolve_ops(old, block_size, seq![op]) == resolve_ops(
        old,
        block_size,
        seq![op].drop_last(),
    ) + resolve_op(old, block_size, seq![op].last()));
    assert(Seq::<u8>::empty() + resolve_op(old, block_size, op) =~= resolve_op(
        old,
        block_size,
        op,
    ));
}

/// Every `Copy` in `ops` names a block the old file actually has.
pub open spec fn ops_wf(old_len: int, block_size: int, ops: Seq<OpModel>) -> bool {
    forall|i: int|
        0 <= i < ops.len() ==> ((#[trigger] ops[i]) matches OpModel::Copy { block_index }
            ==> 0 <= block_index < num_blocks(old_len, block_size))
}

/// A block index is valid exactly when its block starts inside the file.
pub proof fn lemma_block_index_valid(file_len: int, block_size: int, k: int)
    requires
        block_size > 0,
        file_len >= 0,
        k >= 0,
    ensures
        k < num_blocks(file_len, block_size) <==> k * block_size < file_len,
{
    if k * block_size < file_len {
        assert((k + 1) * block_size == k * block_size + block_size) by (nonlinear_arith);
        lemma_div_is_ordered((k + 1) * block_size, file_len + block_size - 1, block_size);
        lemma_div_by_multiple(k + 1, block_size);
    }
    if k < num_blocks(file_len, block_size) {
        lemma_block_in_range(file_len, block_size, k);
    }
}

/// Replays `delta` against the old file's bytes and returns the
/// reconstructed file.
///
/// Exactly one of three things happens:
/// - [`SyncError::InvalidConfiguration`] when the delta carries a zero block
///   size;
/// - [`SyncError::SignatureMismatch`] when the old file's length differs from
///   the one the delta was computed against, or some `Copy` names a block the
///   old file does not have — the reconstructor refuses rather than produce
///   corrupt output;
/// - otherwise `Ok`, and the output is precisely the concatenation of the
///   resolved bytes of all operations in order.
pub fn reconstruct(old: &[u8], delta: &Delta) -> (r: Result<Vec<u8>, SyncError>)
    ensures
        delta.block_size == 0 ==> r == Err::<Vec<u8>, SyncError>(SyncError::InvalidConfiguration),
        delta.block_size != 0 && !(delta.old_len == old@.len()
            && ops_wf(old@.len() as int, delta.block_size as int, delta@.ops)) ==> r == Err::<
            Vec<u8>,
            SyncError,
        >(SyncError::SignatureMismatch),
        delta.block_size != 0 && delta.old_len == old@.len() && ops_wf(
            old@.len() as int,
            delta.block_size as int,
            delta@.ops,
        ) ==> (r matches Ok(out) && out@ == resolve_ops(
            old@,
            delta.block_size as int,
            delta@.ops,
        )),
{
    if delta.block_size == 0 {
        return Err(SyncError::InvalidConfiguration);
    }
    let n: usize = old.len();
    if delta.old_len != n as u64 {
        return Err(SyncError::SignatureMismatch);
    }
    let bs: usize = delta.block_size as usize;
    let ghost ops_model = delta@.ops;
    let mut out: Vec<u8> = Vec::new();
    let mut i: usize = 0;
    while i < delta.ops.len()
        invariant
            bs == delta.block_size as int,
            delta.block_size != 0,
            n == old@.len(),
            delta.old_len == n as u64,
            ops_model == delta@.ops,
            delta.ops@.len() == ops_model.len(),
            i <= ops_model.len(),
            ops_wf(n as int, bs as int, ops_model.take(i as int)),
            out@ == resolve_ops(old@, bs as int, ops_model.take(i as int)),
        decreases delta.ops@.len() - i,
    {
        let ghost prefix = ops_model.take(i as int);
        let op = &delta.ops[i];
        match op {
            Operation::Copy { block_index } => {
                let k: u64 = *block_index;
                proof {
                    assert((k as int) * (bs as int) < 0x10000000000000000 * 0x100000000)
                        by (nonlinear_arith)
                        requires
                            k < 0x10000000000000000,
                            bs < 0x100000000,
                    ;
                    lemma_block_index_valid(n as int, bs as int, k as int);
                }
                if !((k as u128) * (bs as u128) < n as u128) {
                    proof {
                        assert(!ops_wf(n as int, bs as int, ops_model)) by {
                            assert(ops_model[i as int] matches OpModel::Copy { block_index }
                                && !(block_index < num_blocks(n as int, bs as int)));
                        }
                    }
                    return Err(SyncError::SignatureMismatch);
                }
                let start: usize = ((k as u128 * bs as u128) as u64) as usize;
                proof {
                    assert(start as int == (k as int) * (bs as int));
                    lemma_block_in_range(n as int, bs as int, k as int);
                }
                let rem = n - start;
                let len = if rem < bs { rem } else { bs };
                assert(len == block_len(n as int, bs as int, k as int));
                let mut j: usize = 0;
                let ghost out_before = out@;
                while j < len
                    invariant
                        start + len <= n,
                        n == old@.len(),
                        j <= len,
                        out@ == out_before + old@.subrange(start as int, start + j),
                    decreases len - j,
                {
                    out.push(old[start + j]);
                    proof {
                        assert(out_before + old@.subrange(start as int, start + j)
                            + seq![old@[start + j]] =~= out_before + old@.subrange(
                            start as int,
                            start + j + 1,
                        ));
                    }
                    j = j + 1;
                }
                proof {
                    assert(old@.subrange(start as int, start + len) == block_at(
                        old@,
                        bs as int,
                        k as int,
                    ));
                }
            },
            Operation::Literal { bytes } => {
                let m = bytes.len();
                let mut j: usize = 0;
                let ghost out_before = out@;
                while j < m
                    invariant
                        m == bytes@.len(),
                        j <= m,
                        out@ == out_before + bytes@.subrange(0, j as int),
                    decreases m - j,
                {
                    out.push(bytes[j]);
                    proof {
                        assert(out_before + bytes@.subrange(0, j as int) + seq![bytes@[j as int]]
                            =~= out_before + bytes@.subrange(0, j + 1));
                    }
                    j = j + 1;
                }
                proof {
                    assert(bytes@.subrange(0, m as int) =~= bytes@);
                }
            },
        }
        proof {
            assert(ops_model.take(i + 1).drop_last() =~= prefix);
            assert(ops_model.take(i + 1).last() == ops_model[i as int]);
            assert(out@ == resolve_ops(old@, bs as int, ops_model.take(i + 1)));
        }
        i = i + 1;
    }
    proof {
        assert(ops_model.take(ops_model.len() as int) =~= ops_model);
    }
    Ok(out)
}

} // verus!
