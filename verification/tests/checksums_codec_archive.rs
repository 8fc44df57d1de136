use syncre_lib::archive::{join_path, sync_dir, sync_dir_ow, synchronize, ArchiveError};
use syncre_lib::checksum::{rolling_checksum, strong_checksum, RollingChecksum};
use syncre_lib::codec::{decode_delta, decode_signature, encode_delta, encode_signature};
use syncre_lib::delta::Operation;
use syncre_lib::matcher::build_delta;
use syncre_lib::signature::{build_signature, get_sum_chunks};
use syncre_lib::SyncError;

/// RFC 1320 test vectors pin the strong checksum to real MD4.
#[test]
fn strong_checksum_known_vectors() {
    assert_eq!(strong_checksum(b""), "31d6cfe0d16ae931b73c59d7e0c089c0");
    assert_eq!(strong_checksum(b"abc"), "a448017aaf21d8525fc10ae87aa6729d");
    assert_eq!(
        strong_checksum(b"message digest"),
        "d9130a8164549fe818874806e1c7014b"
    );
}

/// The weak checksum of "abc": A = 295, B = 589, so the Adler-32 value is
/// 589 * 65536 + 295 = 38600999.
#[test]
fn rolling_checksum_known_value() {
    assert_eq!(rolling_checksum(b"abc"), "38600999");
    assert_eq!(rolling_checksum(b""), "1");
}

/// The incremental checksum agrees with the checksum crate on the same
/// bytes, whichever way the window was formed.
#[test]
fn rolling_state_matches_whole_input() {
    let mut rc = RollingChecksum::new();
    for b in b"abc" {
        rc.push(*b);
    }
    assert_eq!(rc.value().to_string(), rolling_checksum(b"abc"));

    // Slide "xab" one byte to the right into "abc".
    let mut slid = RollingChecksum::new();
    for b in b"xab" {
        slid.push(*b);
    }
    slid.roll(b'x', b'c');
    assert_eq!(slid.value(), rc.value());

    // Shrink "zabc" at the left edge into "abc".
    let mut shrunk = RollingChecksum::new();
    for b in b"zabc" {
        shrunk.push(*b);
    }
    shrunk.pop_front(b'z');
    assert_eq!(shrunk.value(), rc.value());
    assert_eq!(shrunk.window_len(), 3);
}

/// The legacy chunk listing: one hex digest per 500-byte chunk.
#[test]
fn sum_chunks() {
    assert_eq!(get_sum_chunks(b"").len(), 0);
    let chunks = get_sum_chunks(b"abc");
    assert_eq!(chunks.len(), 1);
    assert_eq!(chunks[0], "a448017aaf21d8525fc10ae87aa6729d");
    let mut long = vec![0u8; 600];
    for (j, b) in long.iter_mut().enumerate() {
        *b = (j % 251) as u8;
    }
    let two = get_sum_chunks(&long);
    assert_eq!(two.len(), 2);
    assert_eq!(two[0], strong_checksum(&long[..500]));
    assert_eq!(two[1], strong_checksum(&long[500..]));
}

#[test]
fn signature_codec_round_trip() {
    let data = b"some file content, long enough for a few blocks".to_vec();
    let sig = build_signature(&data, 10).unwrap();
    let bytes = encode_signature(&sig);
    let back = decode_signature(&bytes).unwrap();
    assert_eq!(back.block_size, sig.block_size);
    assert_eq!(back.file_len, sig.file_len);
    assert_eq!(back.entries.len(), sig.entries.len());
    for k in 0..sig.entries.len() {
        assert_eq!(back.entries[k].block_index, sig.entries[k].block_index);
        assert_eq!(back.entries[k].weak, sig.entries[k].weak);
        assert_eq!(back.entries[k].strong.digest, sig.entries[k].strong.digest);
    }
    // Re-encoding the decoded signature gives the same bytes.
    assert_eq!(encode_signature(&back), bytes);
}

#[test]
fn signature_codec_errors() {
    let data = b"0123456789".to_vec();
    let sig = build_signature(&data, 4).unwrap();
    let bytes = encode_signature(&sig);
    // Cut off mid-record.
    assert_eq!(decode_signature(&bytes[..10]).unwrap_err(), SyncError::Truncated);
    assert_eq!(
        decode_signature(&bytes[..bytes.len() - 1]).unwrap_err(),
        SyncError::Truncated
    );
    // A zero block size in the header.
    let mut zero_bs = bytes.clone();
    zero_bs[0] = 0;
    zero_bs[1] = 0;
    zero_bs[2] = 0;
    zero_bs[3] = 0;
    assert_eq!(
        decode_signature(&zero_bs).unwrap_err(),
        SyncError::InvalidConfiguration
    );
    // An entry count inconsistent with the block layout.
    let mut bad_count = bytes.clone();
    bad_count[12] = 99;
    assert_eq!(
        decode_signature(&bad_count).unwrap_err(),
        SyncError::SignatureMismatch
    );
}

#[test]
fn delta_codec_round_trip() {
    let old = b"one shared block and then some".to_vec();
    let new = b"prefix one shared block and then other".to_vec();
    let sig = build_signature(&old, 8).unwrap();
    let delta = build_delta(&new, &sig).unwrap();
    let bytes = encode_delta(&delta);
    let back = decode_delta(&bytes).unwrap();
    assert_eq!(back.block_size, delta.block_size);
    assert_eq!(back.old_len, delta.old_len);
    assert_eq!(back.ops.len(), delta.ops.len());
    for (a, b) in back.ops.iter().zip(delta.ops.iter()) {
        match (a, b) {
            (Operation::Copy { block_index: x }, Operation::Copy { block_index: y }) => {
                assert_eq!(x, y)
            }
            (Operation::Literal { bytes: x }, Operation::Literal { bytes: y }) => {
                assert_eq!(x, y)
            }
            _ => panic!("operation kinds differ"),
        }
    }
    assert_eq!(encode_delta(&back), bytes);
}

#[test]
fn delta_codec_errors() {
    let old = b"0123456789abcdef".to_vec();
    let sig = build_signature(&old, 4).unwrap();
    let delta = build_delta(&old, &sig).unwrap();
    let bytes = encode_delta(&delta);
    assert_eq!(decode_delta(&bytes[..7]).unwrap_err(), SyncError::Truncated);
    assert_eq!(
        decode_delta(&bytes[..bytes.len() - 2]).unwrap_err(),
        SyncError::Truncated
    );
    let mut zero_bs = bytes.clone();
    zero_bs[0] = 0;
    zero_bs[1] = 0;
    zero_bs[2] = 0;
    zero_bs[3] = 0;
    assert_eq!(
        decode_delta(&zero_bs).unwrap_err(),
        SyncError::InvalidConfiguration
    );
    // Trailing bytes behind the declared operations.
    let mut trailing = bytes.clone();
    trailing.push(0);
    assert_eq!(decode_delta(&trailing).unwrap_err(), SyncError::Truncated);
}

#[test]
fn join_path_inserts_separator() {
    assert_eq!(join_path("a/b", "c.txt"), "a/b/c.txt");
    assert_eq!(join_path("", "c.txt"), "/c.txt");
}

#[test]
fn sync_dir_plans_each_entry() {
    let entries = vec!["a.txt".to_string(), "sub".to_string()];
    let steps = sync_dir("src", "dst", true, true, true, true, &entries).unwrap();
    assert_eq!(steps.len(), 2);
    assert_eq!(steps[0].from, "src/a.txt");
    assert_eq!(steps[0].to, "dst/a.txt");
    assert_eq!(steps[1].from, "src/sub");
    assert_eq!(steps[1].to, "dst/sub");
    let ow = sync_dir_ow("src", "dst", true, true, true, true, &entries).unwrap();
    assert_eq!(ow.len(), 2);
    assert_eq!(ow[1].to, "dst/sub");
}

#[test]
fn sync_dir_validation_errors() {
    let entries: Vec<String> = vec![];
    assert_eq!(
        sync_dir("src", "dst", false, true, true, true, &entries).unwrap_err(),
        ArchiveError::NotADirectory
    );
    assert_eq!(
        sync_dir("src", "dst", true, true, false, true, &entries).unwrap_err(),
        ArchiveError::NotFound
    );
    assert_eq!(
        sync_dir_ow("src", "dst", true, false, true, true, &entries).unwrap_err(),
        ArchiveError::NotADirectory
    );
}

#[test]
fn synchronize_follows_trailing_slash_rule() {
    // A trailing separator: copy to the destination itself.
    let slash = synchronize("foo/bar/", "/usr/share/bar", false, false);
    assert_eq!(slash.from, "foo/bar/");
    assert_eq!(slash.to, "/usr/share/bar");
    // A plain file: copy to the destination itself.
    let file = synchronize("foo/bar", "/usr/share", true, false);
    assert_eq!(file.to, "/usr/share");
    // A directory without a trailing separator: copy into the destination
    // under its own name.
    let dir = synchronize("foo/bar", "/usr/share", false, false);
    assert_eq!(dir.from, "foo/bar");
    assert_eq!(dir.to, "/usr/share/bar");
    // No separator in the source at all.
    let bare = synchronize("testfiles", "/tmp/out", false, false);
    assert_eq!(bare.to, "/tmp/out/testfiles");
}
