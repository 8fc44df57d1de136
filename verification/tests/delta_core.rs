use syncre_lib::delta::{reconstruct, Delta, Operation};
use syncre_lib::matcher::build_delta;
use syncre_lib::signature::build_signature;
use syncre_lib::SyncError;

/// A 1400-byte file made of a repeating byte pattern: byte `j` is `j % 256`.
fn patterned(len: usize) -> Vec<u8> {
    let mut v = Vec::with_capacity(len);
    for j in 0..len {
        v.push((j % 256) as u8);
    }
    v
}

/// Step one of the scheme: the destination splits its file into blocks and
/// checksums each. For b"abc" with block size 2 the blocks are "ab" and "c",
/// and the weak (Adler-32) values are computable by hand.
#[test]
fn step_one() {
    let sig = build_signature(b"abc", 2).unwrap();
    assert_eq!(sig.block_size, 2);
    assert_eq!(sig.file_len, 3);
    assert_eq!(sig.entries.len(), 2);
    assert_eq!(sig.entries[0].block_index, 0);
    assert_eq!(sig.entries[1].block_index, 1);
    // "ab": A = 1 + 97 + 98 = 196, B = 2 + 2*97 + 98 = 294.
    assert_eq!(sig.entries[0].weak, 294 * 65536 + 196);
    // "c": A = 1 + 99 = 100, B = 1 + 99 = 100.
    assert_eq!(sig.entries[1].weak, 100 * 65536 + 100);
    assert_eq!(sig.entries[0].strong.digest.len(), 16);
    assert_eq!(sig.entries[1].strong.digest.len(), 16);
}

#[test]
fn round_trip_modified_file() {
    let old = patterned(1400);
    let mut new = old.clone();
    // Insert five bytes at offset 10.
    for (t, b) in [9u8, 8, 7, 6, 5].iter().enumerate() {
        new.insert(10 + t, *b);
    }
    let sig = build_signature(&old, 700).unwrap();
    let delta = build_delta(&new, &sig).unwrap();
    let out = reconstruct(&old, &delta).unwrap();
    assert_eq!(out, new);
}

#[test]
fn round_trip_unrelated_files() {
    let old = b"the quick brown fox jumps over the lazy dog".to_vec();
    let new = b"an entirely different file, nothing shared".to_vec();
    let sig = build_signature(&old, 8).unwrap();
    let delta = build_delta(&new, &sig).unwrap();
    let out = reconstruct(&old, &delta).unwrap();
    assert_eq!(out, new);
}

/// If old == new, the delta holds `Copy` operations only.
#[test]
fn identity_is_all_copies() {
    let old = patterned(1400);
    let sig = build_signature(&old, 100).unwrap();
    let delta = build_delta(&old, &sig).unwrap();
    assert_eq!(delta.ops.len(), 14);
    for op in &delta.ops {
        assert!(matches!(op, Operation::Copy { .. }));
    }
    let out = reconstruct(&old, &delta).unwrap();
    assert_eq!(out, old);
}

/// An empty old file yields a signature with zero blocks, and the delta for
/// any new file against it is one literal run holding the new file.
#[test]
fn empty_old_file() {
    let sig = build_signature(b"", 700).unwrap();
    assert_eq!(sig.entries.len(), 0);
    assert_eq!(sig.file_len, 0);
    let new = b"fresh content".to_vec();
    let delta = build_delta(&new, &sig).unwrap();
    assert_eq!(delta.ops.len(), 1);
    match &delta.ops[0] {
        Operation::Literal { bytes } => assert_eq!(*bytes, new),
        Operation::Copy { .. } => panic!("expected a literal run"),
    }
    let out = reconstruct(b"", &delta).unwrap();
    assert_eq!(out, new);
}

/// A file shorter than the block size yields exactly one block, as long as
/// the whole file.
#[test]
fn small_file_single_block() {
    let sig = build_signature(b"0123456789", 700).unwrap();
    assert_eq!(sig.entries.len(), 1);
    let block = sig.nth_block(0);
    assert_eq!(block.index, 0);
    assert_eq!(block.offset, 0);
    assert_eq!(block.length, 10);
}

/// The signature layout is exact: full blocks, then a shorter last block.
#[test]
fn block_layout() {
    let sig = build_signature(&patterned(250), 100).unwrap();
    assert_eq!(sig.entries.len(), 3);
    let b0 = sig.nth_block(0);
    let b2 = sig.nth_block(2);
    assert_eq!((b0.offset, b0.length), (0, 100));
    assert_eq!((b2.offset, b2.length), (200, 50));
}

/// Building a signature twice on identical input yields byte-identical
/// output.
#[test]
fn signature_deterministic() {
    let data = patterned(1000);
    let a = build_signature(&data, 128).unwrap();
    let b = build_signature(&data, 128).unwrap();
    let ea = syncre_lib::codec::encode_signature(&a);
    let eb = syncre_lib::codec::encode_signature(&b);
    assert_eq!(ea, eb);
    assert_eq!(a.entries.len(), b.entries.len());
    for k in 0..a.entries.len() {
        assert_eq!(a.entries[k].weak, b.entries[k].weak);
        assert_eq!(a.entries[k].strong.digest, b.entries[k].strong.digest);
    }
}

/// Two distinct blocks engineered to share a weak checksum must not be
/// matched as equal: the strong checksum disambiguates and the matcher falls
/// back to a literal run.
#[test]
fn weak_collision_falls_back_to_literal() {
    // [0, 2, 0] and [1, 0, 1] have the same Adler-32 value:
    // A = 1 + 2 = 3 in both, B = 3 + 4 = 7 in both.
    let old = vec![0u8, 2, 0];
    let new = vec![1u8, 0, 1];
    let sig = build_signature(&old, 3).unwrap();
    let colliding = {
        let other = build_signature(&new, 3).unwrap();
        other.entries[0].weak == sig.entries[0].weak
    };
    assert!(colliding, "the two blocks are engineered to share a weak checksum");
    let delta = build_delta(&new, &sig).unwrap();
    assert_eq!(delta.ops.len(), 1);
    assert!(matches!(&delta.ops[0], Operation::Literal { bytes } if *bytes == new));
    let out = reconstruct(&old, &delta).unwrap();
    assert_eq!(out, new);
}

/// The example scenario: 1400 bytes of a repeated pattern, block size 700.
#[test]
fn example_scenario() {
    let old = patterned(1400);
    let sig = build_signature(&old, 700).unwrap();
    assert_eq!(sig.entries.len(), 2);

    // new identical to old: the delta is exactly [Copy(0), Copy(1)].
    let delta = build_delta(&old, &sig).unwrap();
    assert_eq!(delta.ops.len(), 2);
    assert!(matches!(&delta.ops[0], Operation::Copy { block_index: 0 }));
    assert!(matches!(&delta.ops[1], Operation::Copy { block_index: 1 }));
    assert_eq!(reconstruct(&old, &delta).unwrap(), old);

    // new = old with five bytes inserted at offset 10: the delta starts with
    // a literal run carrying the head of new, and reconstruction is exact
    // whatever realignment the scan found.
    let mut new = old.clone();
    for (t, b) in [255u8, 254, 253, 252, 251].iter().enumerate() {
        new.insert(10 + t, *b);
    }
    let delta2 = build_delta(&new, &sig).unwrap();
    match &delta2.ops[0] {
        Operation::Literal { bytes } => {
            assert!(bytes.len() >= 15);
            assert_eq!(bytes[..15], new[..15]);
        }
        Operation::Copy { .. } => panic!("the shifted head cannot match a block"),
    }
    assert_eq!(reconstruct(&old, &delta2).unwrap(), new);
}

#[test]
fn zero_block_size_is_invalid_configuration() {
    let err = build_signature(b"abc", 0).unwrap_err();
    assert_eq!(err, SyncError::InvalidConfiguration);
    let sig = syncre_lib::signature::Signature { block_size: 0, file_len: 0, entries: vec![] };
    assert_eq!(build_delta(b"x", &sig).unwrap_err(), SyncError::InvalidConfiguration);
}

#[test]
fn reconstruct_refuses_mismatched_old_file() {
    let old = patterned(300);
    let sig = build_signature(&old, 100).unwrap();
    let delta = build_delta(&old, &sig).unwrap();
    // A shorter old file than the delta was computed against.
    let err = reconstruct(&old[..200], &delta).unwrap_err();
    assert_eq!(err, SyncError::SignatureMismatch);
}

#[test]
fn reconstruct_refuses_unknown_block() {
    let old = patterned(300);
    let delta = Delta {
        block_size: 100,
        old_len: 300,
        ops: vec![Operation::Copy { block_index: 3 }],
    };
    assert_eq!(reconstruct(&old, &delta).unwrap_err(), SyncError::SignatureMismatch);
    let delta0 = Delta { block_size: 0, old_len: 300, ops: vec![] };
    assert_eq!(reconstruct(&old, &delta0).unwrap_err(), SyncError::InvalidConfiguration);
}
