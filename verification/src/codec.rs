//! The wire format: flat binary encodings of signatures and deltas.
//!
//! A signature is a fixed-width layout: a header of `block_size` (4 bytes,
//! little-endian), old-file length (8) and entry count (8), then one 20-byte
//! record per entry — weak checksum (4) followed by the 16 strong-digest
//! bytes. A delta is the same header fields (block size, old length, count)
//! followed by a tagged stream: `0` then a block index (8) for `Copy`, `1`
//! then a byte count (8) and the bytes themselves for `Literal`. The decoders
//! detect a zero block size and a block layout inconsistent with the header
//! before any reconstruction can be attempted, and report input that ends
//! mid-record as [`SyncError::Truncated`].

use vstd::bytes::{
    spec_u32_from_le_bytes, spec_u32_to_le_bytes, spec_u64_from_le_bytes, spec_u64_to_le_bytes,
    u32_from_le_bytes, u32_to_le_bytes, u64_from_le_bytes, u64_to_le_bytes,
    lemma_auto_spec_u32_to_from_le_bytes, lemma_auto_spec_u64_to_from_le_bytes,
};
use vstd::prelude::*;
use vstd::slice::{slice_subrange, slice_to_vec};

use crate::delta::{Delta, DeltaModel, OpModel, Operation};
use crate::signature::{num_blocks, EntryModel, SigModel, Signature, SignatureEntry};
use crate::SyncError;

verus! {

/// The encoding of the first `upto` signature entries: 20 bytes each.
pub open spec fn enc_entries(entries: Seq<EntryModel>, upto: int) -> Seq<u8>
    decreases upto,
    when upto >= 0
{
    if upto <= 0 {
        Seq::<u8>::empty()
    } else {
        enc_entries(entries, upto - 1) + spec_u32_to_le_bytes(entries[upto - 1].weak) + entries[
            upto - 1
        ].strong
    }
}

/// The encoding of a whole signature.
pub open spec fn sig_enc(sm: SigModel) -> Seq<u8> {
    spec_u32_to_le_bytes(sm.block_size as u32) + spec_u64_to_le_bytes(sm.file_len as u64)
        + spec_u64_to_le_bytes(sm.entries.len() as u64) + enc_entries(
        sm.entries,
        sm.entries.len() as int,
    )
}

/// Encodes a signature into its wire form.
pub fn encode_signature(sig: &Signature) -> (r: Vec<u8>)
    requires
        sig.wf(),
    ensures
        r@ == sig_enc(sig@),
{
    let ghost sm = sig@;
    let mut out: Vec<u8> = u32_to_le_bytes(sig.block_size);
    let mut flen = u64_to_le_bytes(sig.file_len);
    out.append(&mut flen);
    let mut count = u64_to_le_bytes(sig.entries.len() as u64);
    out.append(&mut count);
    let ghost header = out@;
    let mut k: usize = 0;
    while k < sig.entries.len()
        invariant
            sm == sig@,
            sig.wf(),
            k <= sig.entries@.len(),
            out@ == header + enc_entries(sm.entries, k as int),
        decreases sig.entries@.len() - k,
    {
        let mut weak = u32_to_le_bytes(sig.entries[k].weak);
        out.append(&mut weak);
        let mut strong = slice_to_vec(sig.entries[k].strong.digest.as_slice());
        out.append(&mut strong);
        proof {
            assert(header + enc_entries(sm.entries, k as int) + spec_u32_to_le_bytes(
                sm.entries[k as int].weak,
            ) + sm.entries[k as int].strong =~= header + enc_entries(sm.entries, k + 1));
        }
        k = k + 1;
    }
    proof {
        assert(out@ =~= sig_enc(sm));
    }
    out
}

/// The encoding of `upto` entries with 16-byte digests takes 20 bytes each.
proof fn lemma_enc_entries_len(entries: Seq<EntryModel>, upto: int)
    requires
        0 <= upto <= entries.len(),
        forall|k: int| 0 <= k < entries.len() ==> (#[trigger] entries[k]).strong.len() == 16,
    ensures
        enc_entries(entries, upto).len() == 20 * upto,
    decreases upto,
{
    if upto > 0 {
        lemma_enc_entries_len(entries, upto - 1);
        lemma_auto_spec_u32_to_from_le_bytes();
    }
}

/// Where entry `k` sits in the encoding: its weak checksum in the four bytes
/// at `20 * k`, its digest in the sixteen bytes after them.
proof fn lemma_enc_entries_at(entries: Seq<EntryModel>, k: int, upto: int)
    requires
        0 <= k < upto <= entries.len(),
        forall|j: int| 0 <= j < entries.len() ==> (#[trigger] entries[j]).strong.len() == 16,
    ensures
        enc_entries(entries, upto).subrange(20 * k, 20 * k + 4) == spec_u32_to_le_bytes(
            entries[k].weak,
        ),
        enc_entries(entries, upto).subrange(20 * k + 4, 20 * k + 20) == entries[k].strong,
    decreases upto,
{
    lemma_auto_spec_u32_to_from_le_bytes();
    lemma_enc_entries_len(entries, upto - 1);
    lemma_enc_entries_len(entries, upto);
    if k == upto - 1 {
        assert(enc_entries(entries, upto).subrange(20 * k, 20 * k + 4) =~= spec_u32_to_le_bytes(
            entries[k].weak,
        ));
        assert(enc_entries(entries, upto).subrange(20 * k + 4, 20 * k + 20) =~= entries[k].strong);
    } else {
        lemma_enc_entries_at(entries, k, upto - 1);
        assert(enc_entries(entries, upto).subrange(20 * k, 20 * k + 4) =~= enc_entries(
            entries,
            upto - 1,
        ).subrange(20 * k, 20 * k + 4));
        assert(enc_entries(entries, upto).subrange(20 * k + 4, 20 * k + 20) =~= enc_entries(
            entries,
            upto - 1,
        ).subrange(20 * k + 4, 20 * k + 20));
    }
}

/// Round trip of the signature codec, stated over the wire bytes: the
/// encoding of a well-formed signature meets none of the decoder's error
/// conditions, and the decoder's contract pins every decoded field to the
/// encoded one.
pub proof fn lemma_signature_codec_round_trip(sm: SigModel)
    requires
        sm.wf(),
        sm.block_size < 0x100000000,
        sm.file_len < 0x10000000000000000,
        sm.entries.len() < 0x10000000000000000,
    ensures
        sig_enc(sm).len() == 20 + 20 * sm.entries.len(),
        spec_u32_from_le_bytes(sig_enc(sm).subrange(0, 4)) == sm.block_size,
        spec_u64_from_le_bytes(sig_enc(sm).subrange(4, 12)) == sm.file_len,
        spec_u64_from_le_bytes(sig_enc(sm).subrange(12, 20)) == sm.entries.len(),
        sm.entries.len() == num_blocks(sm.file_len, sm.block_size),
        forall|k: int|
            0 <= k < sm.entries.len() ==> spec_u32_from_le_bytes(
                sig_enc(sm).subrange(20 + 20 * k, 24 + 20 * k),
            ) == (#[trigger] sm.entries[k]).weak && sig_enc(sm).subrange(24 + 20 * k, 40 + 20 * k)
                == sm.entries[k].strong,
{
    lemma_auto_spec_u32_to_from_le_bytes();
    lemma_auto_spec_u64_to_from_le_bytes();
    let b = sig_enc(sm);
    let n = sm.entries.len() as int;
    lemma_enc_entries_len(sm.entries, n);
    assert(b.subrange(0, 4) =~= spec_u32_to_le_bytes(sm.block_size as u32));
    assert(b.subrange(4, 12) =~= spec_u64_to_le_bytes(sm.file_len as u64));
    assert(b.subrange(12, 20) =~= spec_u64_to_le_bytes(sm.entries.len() as u64));
    assert forall|k: int|
        0 <= k < sm.entries.len() implies spec_u32_from_le_bytes(
        b.subrange(20 + 20 * k, 24 + 20 * k),
    ) == (#[trigger] sm.entries[k]).weak && b.subrange(24 + 20 * k, 40 + 20 * k)
        == sm.entries[k].strong by {
        lemma_enc_entries_at(sm.entries, k, n);
        assert(b.subrange(20 + 20 * k, 24 + 20 * k) =~= enc_entries(sm.entries, n).subrange(
            20 * k,
            20 * k + 4,
        ));
        assert(b.subrange(24 + 20 * k, 40 + 20 * k) =~= enc_entries(sm.entries, n).subrange(
            20 * k + 4,
            20 * k + 20,
        ));
    }
}

/// Decodes a signature from its wire form.
///
/// Exactly one of four things happens, decided by the input bytes alone:
/// input shorter than the header or not exactly `20 + 20 * count` bytes long
/// is [`SyncError::Truncated`]; a zero block size in the header is
/// [`SyncError::InvalidConfiguration`]; a count that does not agree with the
/// block layout the header describes is [`SyncError::SignatureMismatch`];
/// otherwise the result is `Ok`, well-formed, and every field is pinned to
/// the bytes that encode it.
pub fn decode_signature(bytes: &[u8]) -> (r: Result<Signature, SyncError>)
    ensures
        bytes@.len() < 20 ==> r == Err::<Signature, SyncError>(SyncError::Truncated),
        bytes@.len() >= 20 ==> {
            let bs = spec_u32_from_le_bytes(bytes@.subrange(0, 4));
            let flen = spec_u64_from_le_bytes(bytes@.subrange(4, 12));
            let count = spec_u64_from_le_bytes(bytes@.subrange(12, 20));
            &&& bs == 0 ==> r == Err::<Signature, SyncError>(SyncError::InvalidConfiguration)
            &&& bs != 0 && count != num_blocks(flen as int, bs as int) ==> r == Err::<
                Signature,
                SyncError,
            >(SyncError::SignatureMismatch)
            &&& bs != 0 && count == num_blocks(flen as int, bs as int) && bytes@.len() != 20 + 20
                * count ==> r == Err::<Signature, SyncError>(SyncError::Truncated)
            &&& bs != 0 && count == num_blocks(flen as int, bs as int) && bytes@.len() == 20 + 20
                * count ==> (r matches Ok(sig) && sig.wf() && sig.block_size == bs
                && sig.file_len == flen && sig@.entries.len() == count && forall|k: int|
                0 <= k < count ==> (#[trigger] sig@.entries[k]).weak == spec_u32_from_le_bytes(
                    bytes@.subrange(20 + 20 * k, 24 + 20 * k),
                ) && sig@.entries[k].strong == bytes@.subrange(24 + 20 * k, 40 + 20 * k))
        },
{
    let n: usize = bytes.len();
    if n < 20 {
        return Err(SyncError::Truncated);
    }
    let bs = u32_from_le_bytes(slice_subrange(bytes, 0, 4));
    let flen = u64_from_le_bytes(slice_subrange(bytes, 4, 12));
    let count = u64_from_le_bytes(slice_subrange(bytes, 12, 20));
    if bs == 0 {
        return Err(SyncError::InvalidConfiguration);
    }
    // count must agree with the block layout of a flen-byte file.
    let expected: u128 = (flen as u128) / (bs as u128) + (if (flen as u128) % (bs as u128) != 0 {
        1
    } else {
        0
    });
    proof {
        lemma_num_blocks_from_div(flen as int, bs as int);
    }
    if count as u128 != expected {
        return Err(SyncError::SignatureMismatch);
    }
    if !((n as u128) == 20 + 20 * (count as u128)) {
        return Err(SyncError::Truncated);
    }
    let mut entries: Vec<SignatureEntry> = Vec::new();
    let mut k: usize = 0;
    proof {
        assert(20 + 20 * (count as int) <= usize::MAX);
    }
    let count_us: usize = count as usize;
    while k < count_us
        invariant
            n == bytes@.len(),
            count_us == count,
            n as int == 20 + 20 * (count as int),
            k <= count_us,
            entries@.len() == k,
            forall|j: int|
                0 <= j < k ==> (#[trigger] entries@[j])@.block_index == j
                    && entries@[j]@.weak == spec_u32_from_le_bytes(
                    bytes@.subrange(20 + 20 * j, 24 + 20 * j),
                ) && entries@[j]@.strong == bytes@.subrange(24 + 20 * j, 40 + 20 * j)
                    && entries@[j].strong.digest@.len() == 16,
        decreases count_us - k,
    {
        proof {
            assert(20 + 20 * (k + 1) <= 20 + 20 * (count as int)) by (nonlinear_arith)
                requires k + 1 <= count as int;
            assert(20 * (k + 1) == 20 * k + 20) by (nonlinear_arith);
        }
        let base: usize = 20 + 20 * k;
        let weak = u32_from_le_bytes(slice_subrange(bytes, base, base + 4));
        let strong = slice_to_vec(slice_subrange(bytes, base + 4, base + 20));
        entries.push(
            SignatureEntry {
                block_index: k as u64,
                weak,
                strong: crate::checksum::StrongChecksum { digest: strong },
            },
        );
        k = k + 1;
    }
    let sig = Signature { block_size: bs, file_len: flen, entries };
    proof {
        assert forall|j: int| 0 <= j < count implies (#[trigger] sig@.entries[j]).block_index == j
            && sig@.entries[j].weak == spec_u32_from_le_bytes(
            bytes@.subrange(20 + 20 * j, 24 + 20 * j),
        ) && sig@.entries[j].strong == bytes@.subrange(24 + 20 * j, 40 + 20 * j) by {
            assert(sig@.entries[j] == sig.entries@[j]@);
        }
    }
    Ok(sig)
}

/// The number of blocks, written with division and remainder.
proof fn lemma_num_blocks_from_div(file_len: int, block_size: int)
    requires
        file_len >= 0,
        block_size > 0,
    ensures
        num_blocks(file_len, block_size) == file_len / block_size + (if file_len % block_size
            != 0 {
            1int
        } else {
            0int
        }),
{
    vstd::arithmetic::div_mod::lemma_fundamental_div_mod(file_len, block_size);
    let q = file_len / block_size;
    let r = file_len % block_size;
    vstd::arithmetic::div_mod::lemma_mod_division_less_than_divisor(file_len, block_size);
    if r == 0 {
        vstd::arithmetic::div_mod::lemma_div_multiples_vanish_fancy(q, block_size - 1, block_size);
    } else {
        vstd::arithmetic::div_mod::lemma_div_multiples_vanish_fancy(q + 1, r - 1, block_size);
        assert(block_size * (q + 1) + (r - 1) == file_len + block_size - 1) by (nonlinear_arith)
            requires file_len == block_size * q + r;
    }
}

/// The encoding of a sequence prefix reads only the prefix.
proof fn lemma_enc_ops_prefix(a: Seq<OpModel>, b: Seq<OpModel>, upto: int)
    requires
        0 <= upto <= a.len(),
        upto <= b.len(),
        forall|j: int| 0 <= j < upto ==> a[j] == b[j],
    ensures
        enc_ops(a, upto) == enc_ops(b, upto),
    decreases upto,
{
    if upto > 0 {
        lemma_enc_ops_prefix(a, b, upto - 1);
    }
}

/// The encoding of one delta operation.
pub open spec fn op_enc(op: OpModel) -> Seq<u8> {
    match op {
        OpModel::Copy { block_index } => seq![0u8] + spec_u64_to_le_bytes(block_index as u64),
        OpModel::Literal { bytes } => seq![1u8] + spec_u64_to_le_bytes(bytes.len() as u64) + bytes,
    }
}

/// The encoding of the first `upto` operations, concatenated.
pub open spec fn enc_ops(ops: Seq<OpModel>, upto: int) -> Seq<u8>
    decreases upto,
    when upto >= 0
{
    if upto <= 0 {
        Seq::<u8>::empty()
    } else {
        enc_ops(ops, upto - 1) + op_enc(ops[upto - 1])
    }
}

/// The encoding of a whole delta.
pub open spec fn delta_enc(dm: DeltaModel) -> Seq<u8> {
    spec_u32_to_le_bytes(dm.block_size as u32) + spec_u64_to_le_bytes(dm.old_len as u64)
        + spec_u64_to_le_bytes(dm.ops.len() as u64) + enc_ops(dm.ops, dm.ops.len() as int)
}

/// A delta model whose fields fit their wire widths: this holds of the view
/// of every [`Delta`] value.
pub open spec fn delta_model_fits(dm: DeltaModel) -> bool {
    &&& 0 < dm.block_size < 0x100000000
    &&& 0 <= dm.old_len < 0x10000000000000000
    &&& dm.ops.len() < 0x10000000000000000
    &&& forall|t: int|
        0 <= t < dm.ops.len() ==> (match #[trigger] dm.ops[t] {
            OpModel::Copy { block_index } => 0 <= block_index < 0x10000000000000000,
            OpModel::Literal { bytes } => bytes.len() < 0x10000000000000000,
        })
}

/// Splitting the encoding of a prefix: the first `u` operations encode as
/// the first `t` followed by the operations between `t` and `u`.
proof fn lemma_enc_ops_split(ops: Seq<OpModel>, t: int, u: int)
    requires
        0 <= t <= u <= ops.len(),
    ensures
        enc_ops(ops, u) == enc_ops(ops, t) + enc_ops(ops.subrange(t, u), u - t),
    decreases u - t,
{
    if u == t {
        assert(enc_ops(ops, t) + enc_ops(ops.subrange(t, u), 0) =~= enc_ops(ops, t));
    } else {
        lemma_enc_ops_split(ops, t, u - 1);
        lemma_enc_ops_prefix(ops.subrange(t, u - 1), ops.subrange(t, u), u - 1 - t);
        assert(ops.subrange(t, u)[u - 1 - t] == ops[u - 1]);
        assert(enc_ops(ops.subrange(t, u), u - t) == enc_ops(ops.subrange(t, u), u - 1 - t)
            + op_enc(ops[u - 1]));
        assert(enc_ops(ops, t) + enc_ops(ops.subrange(t, u - 1), u - 1 - t) + op_enc(ops[u - 1])
            =~= enc_ops(ops, t) + enc_ops(ops.subrange(t, u), u - t));
    }
}

/// The bytes one operation contributes, read off the full encoding: they sit
/// right behind the encoding of the operations before it.
proof fn lemma_enc_ops_at(ops: Seq<OpModel>, t: int)
    requires
        0 <= t < ops.len(),
    ensures
        enc_ops(ops, ops.len() as int) == enc_ops(ops, t) + op_enc(ops[t]) + enc_ops(
            ops.subrange(t + 1, ops.len() as int),
            ops.len() - t - 1,
        ),
{
    lemma_enc_ops_split(ops, t + 1, ops.len() as int);
    assert(enc_ops(ops, t + 1) == enc_ops(ops, t) + op_enc(ops[t]));
    assert(enc_ops(ops, t) + op_enc(ops[t]) + enc_ops(
        ops.subrange(t + 1, ops.len() as int),
        ops.len() - t - 1,
    ) =~= enc_ops(ops, t + 1) + enc_ops(ops.subrange(t + 1, ops.len() as int), ops.len() - t - 1));
}

/// Encodes a delta into its wire form.
pub fn encode_delta(delta: &Delta) -> (r: Vec<u8>)
    ensures
        r@ == delta_enc(delta@),
{
    let ghost dm = delta@;
    let mut out: Vec<u8> = u32_to_le_bytes(delta.block_size);
    let mut old_len = u64_to_le_bytes(delta.old_len);
    out.append(&mut old_len);
    let mut count = u64_to_le_bytes(delta.ops.len() as u64);
    out.append(&mut count);
    let ghost header = out@;
    let mut t: usize = 0;
    while t < delta.ops.len()
        invariant
            dm == delta@,
            t <= delta.ops@.len(),
            dm.ops.len() == delta.ops@.len(),
            out@ == header + enc_ops(dm.ops, t as int),
        decreases delta.ops@.len() - t,
    {
        match &delta.ops[t] {
            Operation::Copy { block_index } => {
                out.push(0);
                let mut idx = u64_to_le_bytes(*block_index);
                out.append(&mut idx);
                proof {
                    assert(dm.ops[t as int] == delta.ops@[t as int]@);
                    assert(header + enc_ops(dm.ops, t as int) + seq![0u8]
                        + spec_u64_to_le_bytes(*block_index) =~= header + enc_ops(
                        dm.ops,
                        t + 1,
                    ));
                }
            },
            Operation::Literal { bytes } => {
                out.push(1);
                let mut blen = u64_to_le_bytes(bytes.len() as u64);
                out.append(&mut blen);
                let mut body = slice_to_vec(bytes.as_slice());
                out.append(&mut body);
                proof {
                    assert(dm.ops[t as int] == delta.ops@[t as int]@);
                    assert(header + enc_ops(dm.ops, t as int) + seq![1u8]
                        + spec_u64_to_le_bytes(bytes@.len() as u64) + bytes@ =~= header + enc_ops(
                        dm.ops,
                        t + 1,
                    ));
                }
            },
        }
        t = t + 1;
    }
    proof {
        assert(out@ =~= delta_enc(dm));
    }
    out
}

/// Decodes a delta from its wire form.
///
/// On success the result is faithful: re-encoding it yields the input bytes
/// exactly, so a decoded delta carries precisely what was sent. A header
/// with a zero block size is [`SyncError::InvalidConfiguration`]; input that
/// ends mid-record, declares more operations than its bytes hold, or leaves
/// trailing bytes behind the declared operations is [`SyncError::Truncated`].
#[verifier::rlimit(100)]
pub fn decode_delta(bytes: &[u8]) -> (r: Result<Delta, SyncError>)
    ensures
        r matches Ok(d) ==> delta_enc(d@) == bytes@,
        (exists|dm: DeltaModel| delta_model_fits(dm) && delta_enc(dm) == bytes@) ==> r is Ok,
        r is Err ==> r == Err::<Delta, SyncError>(SyncError::Truncated) || r == Err::<
            Delta,
            SyncError,
        >(SyncError::InvalidConfiguration),
        bytes@.len() < 20 ==> r == Err::<Delta, SyncError>(SyncError::Truncated),
        bytes@.len() >= 20 && spec_u32_from_le_bytes(bytes@.subrange(0, 4)) == 0 ==> r == Err::<
            Delta,
            SyncError,
        >(SyncError::InvalidConfiguration),
{
    let ghost ex = exists|dm: DeltaModel| delta_model_fits(dm) && delta_enc(dm) == bytes@;
    let ghost dmw = choose|dm: DeltaModel| delta_model_fits(dm) && delta_enc(dm) == bytes@;
    proof {
        lemma_auto_spec_u32_to_from_le_bytes();
        lemma_auto_spec_u64_to_from_le_bytes();
    }
    let n: usize = bytes.len();
    if n < 20 {
        proof {
            if ex {
                assert(delta_enc(dmw).len() >= 20);
            }
        }
        return Err(SyncError::Truncated);
    }
    let bs = u32_from_le_bytes(slice_subrange(bytes, 0, 4));
    let old_len = u64_from_le_bytes(slice_subrange(bytes, 4, 12));
    let count = u64_from_le_bytes(slice_subrange(bytes, 12, 20));
    proof {
        if ex {
            // The header bytes are the encodings of the witness's fields.
            assert(bytes@.subrange(0, 4) =~= spec_u32_to_le_bytes(dmw.block_size as u32));
            assert(bytes@.subrange(4, 12) =~= spec_u64_to_le_bytes(dmw.old_len as u64));
            assert(bytes@.subrange(12, 20) =~= spec_u64_to_le_bytes(dmw.ops.len() as u64));
            assert(bs == dmw.block_size);
            assert(old_len == dmw.old_len);
            assert(count == dmw.ops.len());
        }
    }
    if bs == 0 {
        return Err(SyncError::InvalidConfiguration);
    }
    proof {
        assert(bytes@.subrange(0, 4) =~= spec_u32_to_le_bytes(bs));
        assert(bytes@.subrange(4, 12) =~= spec_u64_to_le_bytes(old_len));
        assert(bytes@.subrange(12, 20) =~= spec_u64_to_le_bytes(count));
    }
    let mut ops: Vec<Operation> = Vec::new();
    let mut cursor: usize = 20;
    let mut t: u64 = 0;
    while t < count
        invariant
            n == bytes@.len(),
            bs == spec_u32_from_le_bytes(bytes@.subrange(0, 4)),
            bs != 0,
            t <= count,
            20 <= cursor <= n,
            ops@.len() == t,
            bytes@.subrange(0, cursor as int) == spec_u32_to_le_bytes(bs) + spec_u64_to_le_bytes(
                old_len,
            ) + spec_u64_to_le_bytes(count) + enc_ops(
                ops@.map_values(|op: Operation| op@),
                t as int,
            ),
            old_len == spec_u64_from_le_bytes(bytes@.subrange(4, 12)),
            count == spec_u64_from_le_bytes(bytes@.subrange(12, 20)),
            ex == exists|dm: DeltaModel| delta_model_fits(dm) && delta_enc(dm) == bytes@,
            ex ==> delta_model_fits(dmw) && delta_enc(dmw) == bytes@,
            ex ==> count == dmw.ops.len() && ops@.map_values(|op: Operation| op@)
                == dmw.ops.take(t as int),
        decreases count - t,
    {
        let ghost models0 = ops@.map_values(|op: Operation| op@);
        let ghost consumed0 = bytes@.subrange(0, cursor as int);
        proof {
            lemma_auto_spec_u32_to_from_le_bytes();
            lemma_auto_spec_u64_to_from_le_bytes();
            if ex {
                // The witness's next operation sits right at the cursor.
                lemma_enc_ops_prefix(models0, dmw.ops, t as int);
                lemma_enc_ops_at(dmw.ops, t as int);
                // The header fields agree with the witness's.
                assert(bytes@.subrange(0, 4) =~= spec_u32_to_le_bytes(dmw.block_size as u32));
                assert(bytes@.subrange(4, 12) =~= spec_u64_to_le_bytes(dmw.old_len as u64));
                assert(bytes@.subrange(12, 20) =~= spec_u64_to_le_bytes(dmw.ops.len() as u64));
                assert(bs == dmw.block_size as u32);
                assert(old_len == dmw.old_len as u64);
                assert(count == dmw.ops.len() as u64);
                // The consumed bytes plus the next operation's encoding plus
                // the remaining operations' encodings make up the input.
                let opb = op_enc(dmw.ops[t as int]);
                let tail = enc_ops(
                    dmw.ops.subrange(t + 1, count as int),
                    count - t - 1,
                );
                assert(consumed0 + opb + tail =~= bytes@);
                assert(bytes@.subrange(
                    cursor as int,
                    cursor + opb.len(),
                ) =~= opb);
                assert(op_enc(dmw.ops[t as int]).len() >= 9);
                assert(n >= cursor + op_enc(dmw.ops[t as int]).len());
            }
        }
        if cursor >= n {
            return Err(SyncError::Truncated);
        }
        let tag = bytes[cursor];
        proof {
            if ex {
                assert(bytes@[cursor as int] == op_enc(dmw.ops[t as int])[0]);
                match dmw.ops[t as int] {
                    OpModel::Copy { block_index } => {
                        assert(op_enc(dmw.ops[t as int])[0] == 0u8);
                    },
                    OpModel::Literal { bytes: lit } => {
                        assert(op_enc(dmw.ops[t as int])[0] == 1u8);
                    },
                }
            }
        }
        if tag == 0 {
            if n - cursor < 9 {
                return Err(SyncError::Truncated);
            }
            let idx = u64_from_le_bytes(slice_subrange(bytes, cursor + 1, cursor + 9));
            ops.push(Operation::Copy { block_index: idx });
            proof {
                lemma_auto_spec_u64_to_from_le_bytes();
                let models1 = ops@.map_values(|op: Operation| op@);
                lemma_enc_ops_prefix(models1, models0, t as int);
                assert(models1[t as int] == OpModel::Copy { block_index: idx as int });
                assert(enc_ops(models1, t + 1) == enc_ops(models0, t as int) + op_enc(
                    OpModel::Copy { block_index: idx as int },
                ));
                assert(bytes@.subrange(cursor + 1, cursor + 9) =~= spec_u64_to_le_bytes(idx));
                assert(bytes@.subrange(0, cursor + 9) =~= consumed0 + seq![0u8]
                    + spec_u64_to_le_bytes(idx));
                if ex {
                    match dmw.ops[t as int] {
                        OpModel::Copy { block_index } => {
                            assert(bytes@.subrange(cursor + 1, cursor + 9) =~= spec_u64_to_le_bytes(
                                block_index as u64,
                            ));
                            assert(idx as int == block_index);
                            assert(dmw.ops.take(t + 1).drop_last() =~= dmw.ops.take(t as int));
                            assert(models1 =~= dmw.ops.take(t + 1));
                        },
                        OpModel::Literal { bytes: lit } => {
                            assert(false);
                        },
                    }
                }
            }
            cursor = cursor + 9;
        } else if tag == 1 {
            if n - cursor < 9 {
                return Err(SyncError::Truncated);
            }
            let blen = u64_from_le_bytes(slice_subrange(bytes, cursor + 1, cursor + 9));
            proof {
                if ex {
                    match dmw.ops[t as int] {
                        OpModel::Copy { block_index } => {
                            assert(false);
                        },
                        OpModel::Literal { bytes: lit } => {
                            assert(bytes@.subrange(cursor + 1, cursor + 9) =~= spec_u64_to_le_bytes(
                                lit.len() as u64,
                            ));
                            assert(blen == lit.len());
                            assert(n >= cursor + 9 + lit.len());
                        },
                    }
                }
            }
            if !((blen as u128) <= (n - cursor - 9) as u128) {
                return Err(SyncError::Truncated);
            }
            let blen_us: usize = blen as usize;
            let body = slice_to_vec(slice_subrange(bytes, cursor + 9, cursor + 9 + blen_us));
            ops.push(Operation::Literal { bytes: body });
            proof {
                lemma_auto_spec_u64_to_from_le_bytes();
                let models1 = ops@.map_values(|op: Operation| op@);
                lemma_enc_ops_prefix(models1, models0, t as int);
                assert(models1[t as int] == OpModel::Literal {
                    bytes: bytes@.subrange(cursor + 9, cursor + 9 + blen as int),
                });
                assert(enc_ops(models1, t + 1) == enc_ops(models0, t as int) + op_enc(
                    OpModel::Literal {
                        bytes: bytes@.subrange(cursor + 9, cursor + 9 + blen as int),
                    },
                ));
                assert(bytes@.subrange(cursor + 1, cursor + 9) =~= spec_u64_to_le_bytes(blen));
                assert(bytes@.subrange(0, cursor + 9 + blen as int) =~= consumed0 + seq![1u8]
                    + spec_u64_to_le_bytes(blen) + bytes@.subrange(
                    cursor + 9,
                    cursor + 9 + blen as int,
                ));
                if ex {
                    match dmw.ops[t as int] {
                        OpModel::Copy { block_index } => {
                            assert(false);
                        },
                        OpModel::Literal { bytes: lit } => {
                            assert(bytes@.subrange(cursor + 9, cursor + 9 + blen as int) =~= lit);
                            assert(dmw.ops.take(t + 1).drop_last() =~= dmw.ops.take(t as int));
                            assert(models1 =~= dmw.ops.take(t + 1));
                        },
                    }
                }
            }
            cursor = cursor + 9 + blen_us;
        } else {
            return Err(SyncError::Truncated);
        }
        t = t + 1;
    }
    proof {
        if ex {
            assert(dmw.ops.take(count as int) =~= dmw.ops);
            lemma_enc_ops_prefix(ops@.map_values(|op: Operation| op@), dmw.ops, count as int);
            assert(delta_enc(dmw).len() == cursor as int);
        }
    }
    if cursor != n {
        return Err(SyncError::Truncated);
    }
    let d = Delta { block_size: bs, old_len, ops };
    proof {
        assert(bytes@.subrange(0, n as int) =~= bytes@);
        assert(delta_enc(d@) == bytes@);
    }
    Ok(d)
}

} // verus!
