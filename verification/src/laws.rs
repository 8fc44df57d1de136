//! The laws that tie the three components together.
//!
//! `build_signature`, `build_delta` and `reconstruct` each pin their result
//! to a spec function (`sig_of`, `matcher_ops`, `resolve_ops`). The proof
//! functions here state the properties of the whole pipeline over those spec
//! functions: replaying a delta reproduces the new file, an unchanged file
//! produces a copy-only delta, an empty old file produces one literal run,
//! and so on.
//!
//! The strong checksum is named, not defined, so nothing can prove two
//! windows with equal digests hold equal bytes; where a law needs that, it
//! assumes [`strong_collision_free`] — the matched windows of the scan at
//! hand are free of strong-checksum collisions — which is exactly the
//! assumption the delta-transfer scheme itself rests on.

use vstd::prelude::*;

use crate::checksum::md4_of;
use crate::delta::{
    lemma_resolve_ops_concat, lemma_resolve_singleton, ops_wf, resolve_ops, OpModel,
};
use crate::matcher::{
    entry_matches, first_match_from, match_at, matcher_ops, win_len,
};
use crate::signature::{
    block_at, block_len, lemma_block_in_range, num_blocks, sig_of, SigModel,
};

verus! {

/// The scan of `new` against the signature of `old` meets no strong-checksum
/// collision: whenever a window of `new` agrees with a block of `old` in
/// length, weak checksum and strong checksum, the window holds that block's
/// bytes.
pub open spec fn strong_collision_free(old: Seq<u8>, new: Seq<u8>, block_size: int) -> bool {
    forall|i: int, k: int|
        0 <= i < new.len() && 0 <= k < num_blocks(old.len() as int, block_size)
            && #[trigger] entry_matches(
            sig_of(old, block_size),
            k,
            new.subrange(i, i + win_len(sig_of(old, block_size), new.len() as int, i)),
        ) ==> new.subrange(i, i + win_len(sig_of(old, block_size), new.len() as int, i))
            == block_at(old, block_size, k)
}

/// What a successful match means: the found index is the least matching one.
proof fn lemma_first_match_some_props(sm: SigModel, w: Seq<u8>, j: int)
    requires
        0 <= j,
    ensures
        first_match_from(sm, w, j) matches Some(k) ==> j <= k < sm.entries.len()
            && entry_matches(sm, k, w),
    decreases sm.entries.len() - j,
{
    if j < sm.entries.len() {
        if !entry_matches(sm, j, w) {
            lemma_first_match_some_props(sm, w, j + 1);
        }
    }
}

/// If some entry at or after `j` matches, the search from `j` succeeds.
proof fn lemma_first_match_exists(sm: SigModel, w: Seq<u8>, j: int, k: int)
    requires
        0 <= j <= k < sm.entries.len(),
        entry_matches(sm, k, w),
    ensures
        first_match_from(sm, w, j) matches Some(x) && x <= k,
    decreases k - j,
{
    if j < k && !entry_matches(sm, j, w) {
        lemma_first_match_exists(sm, w, j + 1, k);
    }
}

/// Every `Copy` the matcher emits names a block the signature has.
pub proof fn lemma_matcher_ops_wf(old: Seq<u8>, new: Seq<u8>, block_size: int, i: int, pending: Seq<u8>)
    requires
        block_size > 0,
        0 <= i <= new.len(),
    ensures
        ops_wf(
            old.len() as int,
            block_size,
            matcher_ops(sig_of(old, block_size), new, i, pending),
        ),
    decreases new.len() - i,
{
    let sm = sig_of(old, block_size);
    let ops = matcher_ops(sm, new, i, pending);
    if i >= new.len() {
    } else {
        let w = win_len(sm, new.len() as int, i);
        match match_at(sm, new, i) {
            Some(k) => {
                lemma_first_match_some_props(
                    sm,
                    new.subrange(i, i + w),
                    0,
                );
                lemma_matcher_ops_wf(old, new, block_size, i + w, Seq::<u8>::empty());
                let pendops: Seq<OpModel> = if pending.len() > 0 {
                    seq![OpModel::Literal { bytes: pending }]
                } else {
                    Seq::<OpModel>::empty()
                };
                let rest = matcher_ops(sm, new, i + w, Seq::<u8>::empty());
                assert(ops == pendops + seq![OpModel::Copy { block_index: k }] + rest);
                assert forall|t: int|
                    0 <= t < ops.len() implies ((#[trigger] ops[t]) matches OpModel::Copy {
                    block_index,
                } ==> 0 <= block_index < num_blocks(old.len() as int, block_size)) by {
                    if t >= pendops.len() + 1 {
                        assert(ops[t] == rest[t - pendops.len() - 1]);
                    } else if t == pendops.len() {
                        assert(ops[t] == OpModel::Copy { block_index: k });
                    }
                }
            },
            None => {
                lemma_matcher_ops_wf(old, new, block_size, i + 1, pending.push(new[i]));
            },
        }
    }
}

/// The heart of the round trip: from any position and pending run, resolving
/// what the matcher emits yields the pending bytes followed by the rest of
/// the new file.
proof fn lemma_matcher_ops_resolve(
    old: Seq<u8>,
    new: Seq<u8>,
    block_size: int,
    i: int,
    pending: Seq<u8>,
)
    requires
        block_size > 0,
        0 <= i <= new.len(),
        strong_collision_free(old, new, block_size),
    ensures
        resolve_ops(
            old,
            block_size,
            matcher_ops(sig_of(old, block_size), new, i, pending),
        ) == pending + new.subrange(i, new.len() as int),
    decreases new.len() - i,
{
    let sm = sig_of(old, block_size);
    let ops = matcher_ops(sm, new, i, pending);
    if i >= new.len() {
        assert(new.subrange(i, new.len() as int) =~= Seq::<u8>::empty());
        if pending.len() > 0 {
            assert(ops == seq![OpModel::Literal { bytes: pending }]);
            lemma_resolve_singleton(old, block_size, OpModel::Literal { bytes: pending });
            assert(resolve_ops(old, block_size, ops) =~= pending + new.subrange(
                i,
                new.len() as int,
            ));
        } else {
            assert(pending + new.subrange(i, new.len() as int) =~= Seq::<u8>::empty());
        }
    } else {
        let w = win_len(sm, new.len() as int, i);
        let window = new.subrange(i, i + w);
        match match_at(sm, new, i) {
            Some(k) => {
                lemma_first_match_some_props(sm, window, 0);
                assert(entry_matches(sm, k, window));
                // No collision: the window holds block k's bytes.
                assert(window == block_at(old, block_size, k));
                lemma_matcher_ops_resolve(old, new, block_size, i + w, Seq::<u8>::empty());
                let pendops: Seq<OpModel> = if pending.len() > 0 {
                    seq![OpModel::Literal { bytes: pending }]
                } else {
                    Seq::<OpModel>::empty()
                };
                let rest = matcher_ops(sm, new, i + w, Seq::<u8>::empty());
                assert(ops == pendops + seq![OpModel::Copy { block_index: k }] + rest);
                lemma_resolve_ops_concat(
                    old,
                    block_size,
                    pendops + seq![OpModel::Copy { block_index: k }],
                    rest,
                );
                lemma_resolve_ops_concat(
                    old,
                    block_size,
                    pendops,
                    seq![OpModel::Copy { block_index: k }],
                );
                lemma_resolve_singleton(old, block_size, OpModel::Copy { block_index: k });
                assert(resolve_ops(old, block_size, seq![OpModel::Copy { block_index: k }])
                    =~= window);
                if pending.len() > 0 {
                    lemma_resolve_singleton(old, block_size, OpModel::Literal { bytes: pending });
                }
                assert(resolve_ops(old, block_size, pendops) =~= pending);
                assert(pending + window + (Seq::<u8>::empty() + new.subrange(
                    i + w,
                    new.len() as int,
                )) =~= pending + new.subrange(i, new.len() as int));
            },
            None => {
                lemma_matcher_ops_resolve(old, new, block_size, i + 1, pending.push(new[i]));
                assert(pending.push(new[i]) + new.subrange(i + 1, new.len() as int) =~= pending
                    + new.subrange(i, new.len() as int));
            },
        }
    }
}

/// Round trip: resolving the delta the matcher computes for `new` against
/// the signature of `old` — what `reconstruct` replays — yields `new`
/// exactly, on every scan free of strong-checksum collisions.
pub proof fn lemma_round_trip(old: Seq<u8>, new: Seq<u8>, block_size: int)
    requires
        block_size > 0,
        strong_collision_free(old, new, block_size),
    ensures
        resolve_ops(
            old,
            block_size,
            matcher_ops(sig_of(old, block_size), new, 0, Seq::<u8>::empty()),
        ) == new,
{
    lemma_matcher_ops_resolve(old, new, block_size, 0, Seq::<u8>::empty());
    assert(Seq::<u8>::empty() + new.subrange(0, new.len() as int) =~= new);
}

/// The whole pipeline: the delta the matcher computes for `new` against the
/// signature of `old` names only blocks `old` has, and resolves to `new` —
/// so replaying it through `reconstruct` succeeds and returns `new` exactly.
pub proof fn lemma_pipeline_round_trip(old: Seq<u8>, new: Seq<u8>, block_size: int)
    requires
        block_size > 0,
        strong_collision_free(old, new, block_size),
    ensures
        ops_wf(
            old.len() as int,
            block_size,
            matcher_ops(sig_of(old, block_size), new, 0, Seq::<u8>::empty()),
        ),
        resolve_ops(
            old,
            block_size,
            matcher_ops(sig_of(old, block_size), new, 0, Seq::<u8>::empty()),
        ) == new,
{
    lemma_matcher_ops_wf(old, new, block_size, 0, Seq::<u8>::empty());
    lemma_round_trip(old, new, block_size);
}

/// A delta with no literal bytes: every operation copies a block.
pub open spec fn all_copies(ops: Seq<OpModel>) -> bool {
    forall|t: int| 0 <= t < ops.len() ==> (#[trigger] ops[t]) is Copy
}

/// From any block boundary of an unchanged file, the matcher emits copies
/// only.
proof fn lemma_identity_from(old: Seq<u8>, block_size: int, m: int)
    requires
        block_size > 0,
        0 <= m,
        m * block_size <= old.len(),
    ensures
        all_copies(matcher_ops(sig_of(old, block_size), old, m * block_size, Seq::<u8>::empty())),
    decreases old.len() - m * block_size,
{
    let sm = sig_of(old, block_size);
    let n = old.len() as int;
    let i = m * block_size;
    if i >= n {
    } else {
        crate::delta::lemma_block_index_valid(n, block_size, m);
        assert(m < num_blocks(n, block_size));
        let w = win_len(sm, n, i);
        let window = old.subrange(i, i + w);
        assert(w == block_len(n, block_size, m));
        assert(window == block_at(old, block_size, m));
        assert(entry_matches(sm, m, window));
        lemma_first_match_exists(sm, window, 0, m);
        let k = match_at(sm, old, i) -> Some_0;
        lemma_first_match_some_props(sm, window, 0);
        let rest = matcher_ops(sm, old, i + w, Seq::<u8>::empty());
        let ops = matcher_ops(sm, old, i, Seq::<u8>::empty());
        assert(ops == Seq::<OpModel>::empty() + seq![OpModel::Copy { block_index: k }] + rest);
        if i + w < n {
            // A full-size window matched, so the next position is the next
            // block boundary.
            assert(w == block_size);
            assert(i + w == (m + 1) * block_size) by (nonlinear_arith)
                requires i == m * block_size, w == block_size;
            assert((m + 1) * block_size <= n);
            lemma_identity_from(old, block_size, m + 1);
            assert(old.len() - (m + 1) * block_size < old.len() - m * block_size);
        } else {
            assert(rest =~= Seq::<OpModel>::empty());
        }
        assert forall|t: int| 0 <= t < ops.len() implies (#[trigger] ops[t]) is Copy by {
            if t == 0 {
                assert(ops[t] == OpModel::Copy { block_index: k });
            } else {
                assert(ops[t] == rest[t - 1]);
            }
        }
    }
}

/// Identity: when the new file equals the old one, the delta consists of
/// `Copy` operations only — no literal bytes at all.
pub proof fn lemma_identity_all_copies(old: Seq<u8>, block_size: int)
    requires
        block_size > 0,
    ensures
        all_copies(matcher_ops(sig_of(old, block_size), old, 0, Seq::<u8>::empty())),
{
    assert(0 * block_size == 0) by (nonlinear_arith);
    lemma_identity_from(old, block_size, 0);
}

/// No two literal runs stand next to each other: every literal is followed
/// by a copy, or ends the delta.
pub open spec fn literals_coalesced(ops: Seq<OpModel>) -> bool {
    forall|t: int|
        0 <= t < ops.len() - 1 ==> ((#[trigger] ops[t]) is Literal ==> ops[t + 1] is Copy)
}

/// Adjacent literal bytes are coalesced into one run: the matcher never
/// emits two literal operations in a row.
pub proof fn lemma_literals_coalesced(sm: SigModel, new: Seq<u8>, i: int, pending: Seq<u8>)
    requires
        sm.block_size > 0,
        0 <= i <= new.len(),
    ensures
        literals_coalesced(matcher_ops(sm, new, i, pending)),
    decreases new.len() - i,
{
    let ops = matcher_ops(sm, new, i, pending);
    if i >= new.len() {
    } else {
        let w = win_len(sm, new.len() as int, i);
        match match_at(sm, new, i) {
            Some(k) => {
                lemma_literals_coalesced(sm, new, i + w, Seq::<u8>::empty());
                let pendops: Seq<OpModel> = if pending.len() > 0 {
                    seq![OpModel::Literal { bytes: pending }]
                } else {
                    Seq::<OpModel>::empty()
                };
                let rest = matcher_ops(sm, new, i + w, Seq::<u8>::empty());
                assert(ops == pendops + seq![OpModel::Copy { block_index: k }] + rest);
                let pl = pendops.len() as int;
                assert forall|t: int|
                    0 <= t < ops.len() - 1 && (#[trigger] ops[t]) is Literal implies ops[t + 1]
                    is Copy by {
                    if t < pl {
                        assert(ops[t + 1] == OpModel::Copy { block_index: k });
                    } else if t == pl {
                        assert(ops[t] == OpModel::Copy { block_index: k });
                    } else {
                        assert(ops[t] == rest[t - pl - 1]);
                        assert(ops[t + 1] == rest[t - pl]);
                    }
                }
            },
            None => {
                lemma_literals_coalesced(sm, new, i + 1, pending.push(new[i]));
            },
        }
    }
}

/// An empty old file has a signature with zero blocks.
pub proof fn lemma_empty_old_signature(block_size: int)
    requires
        block_size > 0,
    ensures
        sig_of(Seq::<u8>::empty(), block_size).entries.len() == 0,
{
    vstd::arithmetic::div_mod::lemma_div_multiples_vanish_fancy(0, block_size - 1, block_size);
    assert(block_size * 0 == 0) by (nonlinear_arith);
}

/// With an empty signature the matcher matches nothing: everything becomes
/// one pending literal run.
proof fn lemma_no_entries_all_literal(sm: SigModel, new: Seq<u8>, i: int, pending: Seq<u8>)
    requires
        sm.block_size > 0,
        sm.entries.len() == 0,
        0 <= i <= new.len(),
    ensures
        matcher_ops(sm, new, i, pending) == (if pending.len() + new.len() - i > 0 {
            seq![OpModel::Literal { bytes: pending + new.subrange(i, new.len() as int) }]
        } else {
            Seq::<OpModel>::empty()
        }),
    decreases new.len() - i,
{
    if i >= new.len() {
        assert(pending + new.subrange(i, new.len() as int) =~= pending);
    } else {
        assert(first_match_from(sm, new.subrange(i, i + win_len(sm, new.len() as int, i)), 0)
            is None);
        lemma_no_entries_all_literal(sm, new, i + 1, pending.push(new[i]));
        assert(pending.push(new[i]) + new.subrange(i + 1, new.len() as int) =~= pending
            + new.subrange(i, new.len() as int));
    }
}

/// Empty old file: the delta for any non-empty `new` against the signature
/// of an empty old file is a single literal run holding `new` itself.
pub proof fn lemma_empty_old_single_literal(new: Seq<u8>, block_size: int)
    requires
        block_size > 0,
        new.len() > 0,
    ensures
        matcher_ops(sig_of(Seq::<u8>::empty(), block_size), new, 0, Seq::<u8>::empty()) == seq![
            OpModel::Literal { bytes: new },
        ],
{
    lemma_empty_old_signature(block_size);
    lemma_no_entries_all_literal(
        sig_of(Seq::<u8>::empty(), block_size),
        new,
        0,
        Seq::<u8>::empty(),
    );
    assert(Seq::<u8>::empty() + new.subrange(0, new.len() as int) =~= new);
}

/// Small file: a non-empty file shorter than the block size yields exactly
/// one block, and that block is the whole file.
pub proof fn lemma_small_file(old: Seq<u8>, block_size: int)
    requires
        block_size > 0,
        0 < old.len() < block_size,
    ensures
        sig_of(old, block_size).entries.len() == 1,
        block_len(old.len() as int, block_size, 0) == old.len(),
        block_at(old, block_size, 0) == old,
{
    let n = old.len() as int;
    vstd::arithmetic::div_mod::lemma_div_multiples_vanish_fancy(1, n - 1, block_size);
    assert(block_size * 1 == block_size) by (nonlinear_arith);
    assert(num_blocks(n, block_size) == 1);
    assert(0 * block_size == 0) by (nonlinear_arith);
    assert(old.subrange(0, n) =~= old);
}

/// Determinism: the signature is a function of the input bytes and the block
/// size — any two signatures of the same input have one and the same model.
pub proof fn lemma_signature_deterministic(old: Seq<u8>, block_size: int, a: SigModel, b: SigModel)
    requires
        a == sig_of(old, block_size),
        b == sig_of(old, block_size),
    ensures
        a == b,
{
}

/// Collision resilience: a window whose strong checksum agrees with no
/// signature entry is never matched, whatever its weak checksum does — the
/// matcher falls back to literal emission at that position.
pub proof fn lemma_collision_falls_back(sm: SigModel, new: Seq<u8>, i: int)
    requires
        0 <= i < new.len(),
        forall|k: int|
            0 <= k < sm.entries.len() ==> (#[trigger] sm.entries[k]).strong != md4_of(
                new.subrange(i, i + win_len(sm, new.len() as int, i)),
            ),
    ensures
        match_at(sm, new, i) is None,
{
    let window = new.subrange(i, i + win_len(sm, new.len() as int, i));
    assert forall|t: int| 0 <= t < sm.entries.len() implies !entry_matches(sm, t, window) by {
        assert(sm.entries[t].strong != md4_of(window));
    }
    crate::matcher::lemma_first_match_none(sm, window, 0);
}

} // verus!
