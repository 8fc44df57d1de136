//! The single-pass matcher: from the new file and a signature to a delta.
//!
//! The matcher slides a window over the new file. At each position it looks
//! the window's weak checksum up in an index built from the signature; on a
//! hit it confirms candidates with the strong checksum, emits a `Copy` and
//! skips the matched window, otherwise it emits the window's first byte into
//! a pending literal run and slides by one — updating the weak checksum in
//! O(1), never recomputing it from scratch. The whole scan is pinned by the
//! spec function [`matcher_ops`]: `build_delta` returns exactly the
//! operations that function describes.

use std::collections::HashMap;

use vstd::prelude::*;
use vstd::slice::slice_subrange;

use crate::checksum::{adler32_of, md4_of, RollingChecksum, StrongChecksum, window_checksum};
use crate::delta::{Delta, OpModel, Operation};
use crate::signature::{block_len, SigModel, Signature};
use crate::SyncError;

verus! {

broadcast use vstd::std_specs::hash::group_hash_axioms;

/// The length of the matcher's window at position `i` of the new file:
/// the block size, or whatever remains of the file if that is less.
pub open spec fn win_len(sm: SigModel, new_len: int, i: int) -> int {
    if new_len - i < sm.block_size {
        new_len - i
    } else {
        sm.block_size
    }
}

/// Whether signature entry `k` matches the window bytes `w`: the block has
/// exactly the window's length and both checksums agree.
pub open spec fn entry_matches(sm: SigModel, k: int, w: Seq<u8>) -> bool {
    &&& block_len(sm.file_len, sm.block_size, k) == w.len()
    &&& sm.entries[k].weak == adler32_of(w)
    &&& sm.entries[k].strong == md4_of(w)
}

/// The least entry index `>= k` that matches the window `w`, if any.
pub open spec fn first_match_from(sm: SigModel, w: Seq<u8>, k: int) -> Option<int>
    decreases sm.entries.len() - k,
    when 0 <= k
{
    if k >= sm.entries.len() {
        None
    } else if entry_matches(sm, k, w) {
        Some(k)
    } else {
        first_match_from(sm, w, k + 1)
    }
}

/// The first signature entry the window at position `i` of `new` matches.
pub open spec fn match_at(sm: SigModel, new: Seq<u8>, i: int) -> Option<int> {
    first_match_from(sm, new.subrange(i, i + win_len(sm, new.len() as int, i)), 0)
}

/// The operations the matcher emits from position `i` on, with `pending`
/// literal bytes accumulated so far: on a verified match, flush the pending
/// run, emit a `Copy` and skip the window; otherwise move the window's first
/// byte to the pending run and slide by one; at the end flush what is left.
pub open spec fn matcher_ops(sm: SigModel, new: Seq<u8>, i: int, pending: Seq<u8>) -> Seq<OpModel>
    decreases new.len() - i,
    when 0 <= i && sm.block_size > 0
{
    if i >= new.len() {
        if pending.len() > 0 {
            seq![OpModel::Literal { bytes: pending }]
        } else {
            Seq::<OpModel>::empty()
        }
    } else {
        let w = win_len(sm, new.len() as int, i);
        match match_at(sm, new, i) {
            Some(k) => (if pending.len() > 0 {
                seq![OpModel::Literal { bytes: pending }]
            } else {
                Seq::<OpModel>::empty()
            }) + seq![OpModel::Copy { block_index: k }] + matcher_ops(
                sm,
                new,
                i + w,
                Seq::<u8>::empty(),
            ),
            None => matcher_ops(sm, new, i + 1, pending.push(new[i])),
        }
    }
}

/// The indices below `upto` of signature entries whose weak checksum is
/// `wv`, in ascending order.
pub open spec fn matching_indices(sm: SigModel, wv: u32, upto: int) -> Seq<u64>
    decreases upto,
    when upto >= 0
{
    if upto <= 0 {
        Seq::<u64>::empty()
    } else if sm.entries[upto - 1].weak == wv {
        matching_indices(sm, wv, upto - 1).push((upto - 1) as u64)
    } else {
        matching_indices(sm, wv, upto - 1)
    }
}

/// `matching_indices` lists exactly the entries with weak checksum `wv`,
/// each once, in ascending order.
pub proof fn lemma_matching_indices_props(sm: SigModel, wv: u32, upto: int)
    requires
        0 <= upto <= 0xffff_ffff_ffff_ffff,
    ensures
        forall|p: int|
            0 <= p < matching_indices(sm, wv, upto).len() ==> 0 <= #[trigger] matching_indices(
                sm,
                wv,
                upto,
            )[p] < upto && sm.entries[matching_indices(sm, wv, upto)[p] as int].weak == wv,
        forall|p: int, q: int|
            0 <= p < q < matching_indices(sm, wv, upto).len() ==> matching_indices(sm, wv, upto)[p]
                < matching_indices(sm, wv, upto)[q],
        forall|j: int|
            0 <= j < upto && sm.entries[j].weak == wv ==> matching_indices(sm, wv, upto).contains(
                j as u64,
            ),
    decreases upto,
{
    if upto > 0 {
        lemma_matching_indices_props(sm, wv, upto - 1);
        let prev = matching_indices(sm, wv, upto - 1);
        let cur = matching_indices(sm, wv, upto);
        if sm.entries[upto - 1].weak == wv {
            assert(cur == prev.push((upto - 1) as u64));
            assert(((upto - 1) as u64) as int == upto - 1);
            assert forall|p: int|
                0 <= p < cur.len() implies 0 <= #[trigger] cur[p] < upto && sm.entries[cur[p] as int].weak
                == wv by {
                if p < prev.len() {
                    assert(cur[p] == prev[p]);
                } else {
                    assert(cur[p] == (upto - 1) as u64);
                }
            }
            assert forall|p: int, q: int| 0 <= p < q < cur.len() implies cur[p] < cur[q] by {
                if q < prev.len() {
                    assert(cur[p] == prev[p] && cur[q] == prev[q]);
                } else {
                    assert(cur[q] == (upto - 1) as u64);
                    assert(cur[p] == prev[p]);
                    assert(prev[p] < upto - 1);
                }
            }
            assert forall|j: int|
                0 <= j < upto && sm.entries[j].weak == wv implies cur.contains(j as u64) by {
                if j < upto - 1 {
                    let p = choose|p: int| 0 <= p < prev.len() && prev[p] == j as u64;
                    assert(cur[p] == j as u64);
                } else {
                    assert(cur[cur.len() - 1] == j as u64);
                }
            }
        } else {
            assert forall|j: int|
                0 <= j < upto && sm.entries[j].weak == wv implies cur.contains(j as u64) by {
                let p = choose|p: int| 0 <= p < prev.len() && prev[p] == j as u64;
                assert(cur[p] == j as u64);
            }
        }
    }
}

/// Below the found index, nothing matches; so `first_match_from` from 0 is
/// exactly the least matching index.
proof fn lemma_first_match_found(sm: SigModel, w: Seq<u8>, j: int, k: int)
    requires
        0 <= j <= k < sm.entries.len(),
        entry_matches(sm, k, w),
        forall|t: int| j <= t < k ==> !entry_matches(sm, t, w),
    ensures
        first_match_from(sm, w, j) == Some(k),
    decreases k - j,
{
    if j < k {
        lemma_first_match_found(sm, w, j + 1, k);
    }
}

/// If nothing from `j` on matches, the search from `j` finds nothing.
pub proof fn lemma_first_match_none(sm: SigModel, w: Seq<u8>, j: int)
    requires
        0 <= j,
        forall|t: int| j <= t < sm.entries.len() ==> !entry_matches(sm, t, w),
    ensures
        first_match_from(sm, w, j) is None,
    decreases sm.entries.len() - j + 1,
{
    if j < sm.entries.len() {
        lemma_first_match_none(sm, w, j + 1);
    }
}

/// The weak-checksum index is faithful to the signature: it has a bucket
/// exactly for each weak value that occurs, and each bucket lists exactly
/// the entries carrying that value, in ascending order.
pub open spec fn index_ok(m: Map<u32, Vec<u64>>, sm: SigModel) -> bool {
    &&& forall|wv: u32|
        #[trigger] m.contains_key(wv) <==> matching_indices(
            sm,
            wv,
            sm.entries.len() as int,
        ).len() > 0
    &&& forall|wv: u32|
        m.contains_key(wv) ==> (#[trigger] m[wv])@ == matching_indices(
            sm,
            wv,
            sm.entries.len() as int,
        )
}

/// Builds the weak-checksum index of a signature: weak value to the
/// ascending list of entry indices carrying it.
fn build_index(sig: &Signature) -> (m: HashMap<u32, Vec<u64>>)
    ensures
        index_ok(m@, sig@),
{
    let ghost sm = sig@;
    let mut m: HashMap<u32, Vec<u64>> = HashMap::new();
    let n = sig.entries.len();
    let mut t: usize = 0;
    while t < n
        invariant
            n == sig.entries@.len(),
            sm == sig@,
            t <= n,
            forall|wv: u32|
                #[trigger] m@.contains_key(wv) <==> matching_indices(sm, wv, t as int).len() > 0,
            forall|wv: u32|
                m@.contains_key(wv) ==> (#[trigger] m@[wv])@ == matching_indices(sm, wv, t as int),
        decreases n - t,
    {
        let wv = sig.entries[t].weak;
        assert(sm.entries[t as int].weak == wv);
        let mut bucket = match m.remove(&wv) {
            Some(v) => v,
            None => Vec::new(),
        };
        proof {
            if matching_indices(sm, wv, t as int).len() > 0 {
                assert(bucket@ == matching_indices(sm, wv, t as int));
            } else {
                assert(bucket@ =~= matching_indices(sm, wv, t as int));
            }
        }
        bucket.push(t as u64);
        m.insert(wv, bucket);
        proof {
            assert(matching_indices(sm, wv, t + 1) == matching_indices(sm, wv, t as int).push(
                t as u64,
            ));
            assert forall|x: u32| #[trigger] m@.contains_key(x) implies matching_indices(
                sm,
                x,
                t + 1,
            ).len() > 0 by {
                if x != wv {
                    assert(matching_indices(sm, x, t + 1) == matching_indices(sm, x, t as int));
                }
            }
            assert forall|x: u32| matching_indices(sm, x, t + 1).len() > 0 implies m@.contains_key(
                x,
            ) by {
                if x != wv {
                    assert(matching_indices(sm, x, t + 1) == matching_indices(sm, x, t as int));
                }
            }
            assert forall|x: u32| m@.contains_key(x) implies (#[trigger] m@[x])@
                == matching_indices(sm, x, t + 1) by {
                if x != wv {
                    assert(matching_indices(sm, x, t + 1) == matching_indices(sm, x, t as int));
                }
            }
        }
        t = t + 1;
    }
    m
}

/// Scans a bucket of candidate entries for the first one that the window
/// `new[i..i + w]` verifies against: the candidate block must have the
/// window's exact length and its strong checksum must agree.
fn scan_bucket(sig: &Signature, bucket: &Vec<u64>, new: &[u8], i: usize, w: usize) -> (r: Option<
    u64,
>)
    requires
        sig.wf(),
        i + w <= new@.len(),
        bucket@ == matching_indices(
            sig@,
            adler32_of(new@.subrange(i as int, i + w)),
            sig@.entries.len() as int,
        ),
    ensures
        r matches Some(k) ==> first_match_from(sig@, new@.subrange(i as int, i + w), 0) == Some(
            k as int,
        ),
        r is None ==> first_match_from(sig@, new@.subrange(i as int, i + w), 0) is None,
{
    let ghost sm = sig@;
    let ghost window = new@.subrange(i as int, i + w);
    let ghost wv = adler32_of(window);
    // Reading the lengths at the exec level bounds them by usize::MAX, which
    // the index arithmetic below needs.
    let nn: usize = new.len();
    let el: usize = sig.entries.len();
    proof {
        lemma_matching_indices_props(sm, wv, sm.entries.len() as int);
    }
    let ws = StrongChecksum::compute(slice_subrange(new, i, i + w));
    let mut p: usize = 0;
    while p < bucket.len()
        invariant
            sm == sig@,
            sig.wf(),
            el == sm.entries.len(),
            window == new@.subrange(i as int, i + w),
            wv == adler32_of(window),
            window.len() == w,
            bucket@ == matching_indices(sm, wv, sm.entries.len() as int),
            p <= bucket@.len(),
            ws.digest@ == md4_of(window),
            forall|q: int| 0 <= q < p ==> !entry_matches(sm, bucket@[q] as int, window),
        decreases bucket@.len() - p,
    {
        proof {
            lemma_matching_indices_props(sm, wv, sm.entries.len() as int);
        }
        let cand: u64 = bucket[p];
        assert(0 <= cand < sm.entries.len());
        assert(sm.entries[cand as int].weak == wv);
        let cu: usize = cand as usize;
        assert(cu as int == cand as int);
        let fb = sig.nth_block(cu);
        assert(fb.length == block_len(sm.file_len, sm.block_size, cand as int));
        if fb.length as usize == w {
            if ws.equals(&sig.entries[cu].strong) {
                proof {
                    assert(sm.entries[cand as int].strong == sig.entries@[cand as int]@.strong);
                    assert(sm.entries[cand as int].strong == md4_of(window));
                    assert(entry_matches(sm, cand as int, window));
                    assert forall|j: int| 0 <= j < cand implies !entry_matches(
                        sm,
                        j,
                        window,
                    ) by {
                        if entry_matches(sm, j, window) {
                            // j carries the same weak value, so it sits in the
                            // bucket, before position p — already ruled out.
                            assert(bucket@.contains(j as u64));
                            let q = choose|q: int|
                                0 <= q < bucket@.len() && bucket@[q] == j as u64;
                            assert(q < p || bucket@[p as int] <= bucket@[q]);
                        }
                    }
                    lemma_first_match_found(sm, window, 0, cand as int);
                }
                return Some(cand);
            }
        }
        assert(!entry_matches(sm, cand as int, window));
        p = p + 1;
    }
    proof {
        assert forall|t: int| 0 <= t < sm.entries.len() implies !entry_matches(
            sm,
            t,
            window,
        ) by {
            if entry_matches(sm, t, window) {
                assert(bucket@.contains(t as u64));
                let q = choose|q: int| 0 <= q < bucket@.len() && bucket@[q] == t as u64;
                assert(!entry_matches(sm, bucket@[q] as int, window));
            }
        }
        lemma_first_match_none(sm, window, 0);
    }
    None
}

/// Computes the [`Delta`] that transforms the file summarized by `sig` into
/// `new`.
///
/// Fails with [`SyncError::InvalidConfiguration`] exactly when the signature
/// carries a zero block size. Otherwise the returned operations are exactly
/// what the single-pass scan [`matcher_ops`] describes, and the delta carries
/// the signature's block size and old-file length.
pub fn build_delta(new: &[u8], sig: &Signature) -> (r: Result<Delta, SyncError>)
    requires
        sig.block_size == 0 || sig.wf(),
    ensures
        r is Err <==> sig.block_size == 0,
        r is Err ==> r == Err::<Delta, SyncError>(SyncError::InvalidConfiguration),
        r matches Ok(d) ==> d.block_size == sig.block_size && d.old_len == sig.file_len
            && d@.ops == matcher_ops(sig@, new@, 0, Seq::<u8>::empty()),
{
    if sig.block_size == 0 {
        return Err(SyncError::InvalidConfiguration);
    }
    let ghost sm = sig@;
    let ghost goal = matcher_ops(sm, new@, 0, Seq::<u8>::empty());
    let n: usize = new.len();
    let bs: usize = sig.block_size as usize;
    let el: usize = sig.entries.len();
    let index = build_index(sig);
    let mut ops: Vec<Operation> = Vec::new();
    let mut pending: Vec<u8> = Vec::new();
    let mut rc = window_checksum(new, 0, if n < bs { n } else { bs });
    let mut i: usize = 0;
    while i < n
        invariant
            sm == sig@,
            sig.wf(),
            bs == sm.block_size,
            n == new@.len(),
            i <= n,
            index_ok(index@, sm),
            el == sm.entries.len(),
            rc.wf(),
            i < n ==> rc.window() == new@.subrange(i as int, i + win_len(sm, n as int, i as int)),
            goal == ops@.map_values(|op: Operation| op@) + matcher_ops(
                sm,
                new@,
                i as int,
                pending@,
            ),
        decreases n - i,
    {
        let w = rc.window_len();
        assert(w == win_len(sm, n as int, i as int));
        let weak = rc.value();
        let ghost window = rc.window();
        let mut matched: Option<u64> = None;
        match index.get(&weak) {
            Some(bucket) => {
                matched = scan_bucket(sig, bucket, new, i, w);
            },
            None => {
                proof {
                    lemma_matching_indices_props(sm, weak, sm.entries.len() as int);
                    assert forall|t: int| 0 <= t < sm.entries.len() implies !entry_matches(
                        sm,
                        t,
                        window,
                    ) by {
                        if entry_matches(sm, t, window) {
                            assert(matching_indices(
                                sm,
                                weak,
                                sm.entries.len() as int,
                            ).contains(t as u64));
                        }
                    }
                    lemma_first_match_none(sm, window, 0);
                }
            },
        }
        let ghost pend0 = pending@;
        let ghost ops0 = ops@;
        match matched {
            Some(k) => {
                assert(match_at(sm, new@, i as int) == Some(k as int));
                if pending.len() > 0 {
                    let lit = pending;
                    pending = Vec::new();
                    ops.push(Operation::Literal { bytes: lit });
                } else {
                    proof {
                        assert(pend0 =~= Seq::<u8>::empty());
                    }
                }
                ops.push(Operation::Copy { block_index: k });
                proof {
                    let pendops: Seq<OpModel> = if pend0.len() > 0 {
                        seq![OpModel::Literal { bytes: pend0 }]
                    } else {
                        Seq::<OpModel>::empty()
                    };
                    assert(ops@.map_values(|op: Operation| op@) =~= ops0.map_values(
                        |op: Operation| op@,
                    ) + pendops + seq![OpModel::Copy { block_index: k as int }]);
                    assert(matcher_ops(sm, new@, i as int, pend0) == pendops + seq![
                        OpModel::Copy { block_index: k as int },
                    ] + matcher_ops(sm, new@, i + w, Seq::<u8>::empty()));
                    assert(ops@.map_values(|op: Operation| op@) + matcher_ops(
                        sm,
                        new@,
                        i + w,
                        Seq::<u8>::empty(),
                    ) =~= ops0.map_values(|op: Operation| op@) + (pendops + seq![
                        OpModel::Copy { block_index: k as int },
                    ] + matcher_ops(sm, new@, i + w, Seq::<u8>::empty())));
                    assert(goal == ops@.map_values(|op: Operation| op@) + matcher_ops(
                        sm,
                        new@,
                        i + w,
                        Seq::<u8>::empty(),
                    ));
                }
                i = i + w;
                if i < n {
                    let wl = if n - i < bs {
                        n - i
                    } else {
                        bs
                    };
                    rc = window_checksum(new, i, wl);
                }
            },
            None => {
                assert(match_at(sm, new@, i as int) is None);
                proof {
                    assert(matcher_ops(sm, new@, i as int, pend0) == matcher_ops(
                        sm,
                        new@,
                        i + 1,
                        pend0.push(new@[i as int]),
                    ));
                }
                pending.push(new[i]);
                if i + w < n {
                    proof {
                        assert(window[0] == new@[i as int]);
                    }
                    rc.roll(new[i], new[i + w]);
                    proof {
                        assert(window.drop_first().push(new@[i + w]) =~= new@.subrange(
                            i + 1,
                            i + 1 + win_len(sm, n as int, i + 1),
                        ));
                    }
                } else {
                    rc.pop_front(new[i]);
                    proof {
                        assert(window.drop_first() =~= new@.subrange(
                            i + 1,
                            i + 1 + win_len(sm, n as int, i + 1),
                        ));
                    }
                }
                i = i + 1;
            },
        }
    }
    if pending.len() > 0 {
        let ghost pend0 = pending@;
        let ghost ops0 = ops@;
        let lit = pending;
        pending = Vec::new();
        ops.push(Operation::Literal { bytes: lit });
        proof {
            assert(ops@.map_values(|op: Operation| op@) =~= ops0.map_values(|op: Operation| op@)
                + seq![OpModel::Literal { bytes: pend0 }]);
            assert(matcher_ops(sm, new@, i as int, pend0) == seq![
                OpModel::Literal { bytes: pend0 },
            ]);
        }
    }
    let d = Delta { block_size: sig.block_size, old_len: sig.file_len, ops };
    proof {
        assert(d@.ops =~= goal);
    }
    Ok(d)
}

} // verus!
