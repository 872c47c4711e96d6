use gix_index::extension::fs_monitor::{decode, for_each_position, SIGNATURE};
use gix_index::extension::FsMonitor;

/// A bitmap on disk.
fn ewah(num_bits: u32, words: &[u64]) -> Vec<u8> {
    let mut out = num_bits.to_be_bytes().to_vec();
    out.extend_from_slice(&(words.len() as u32).to_be_bytes());
    for word in words {
        out.extend_from_slice(&word.to_be_bytes());
    }
    out.extend_from_slice(&0_u32.to_be_bytes());
    out
}

/// The payload of an extension with the bytes of a versioned token and a bitmap.
fn payload(token: &[u8], bitmap: &[u8]) -> Vec<u8> {
    let mut out = token.to_vec();
    out.extend_from_slice(&(bitmap.len() as u32).to_be_bytes());
    out.extend_from_slice(bitmap);
    out
}

/// The bytes of a version-one token.
fn v1(nanos_since_1970: u64) -> Vec<u8> {
    let mut out = 1_u32.to_be_bytes().to_vec();
    out.extend_from_slice(&nanos_since_1970.to_be_bytes());
    out
}

/// The positions of dirty entries, and whether the bitmap is valid.
fn dirty_entries(monitor: &FsMonitor) -> (Vec<usize>, bool) {
    let mut out = Vec::new();
    let valid = monitor
        .for_each_dirty_entry(|index| {
            out.push(index);
            Some(())
        })
        .is_some();
    (out, valid)
}

#[test]
fn fsmonitor_v1_extension_roundtrips() {
    let expected = payload(&v1(1_600_000_000_123_456_789), &ewah(3, &[1 << 33, 0b101]));
    let monitor = decode(&expected).expect("a valid v1 extension");
    assert_eq!(monitor.token(), None);
    assert_eq!(dirty_entries(&monitor), (vec![0, 2], true));

    let mut encoded = Vec::new();
    assert_eq!(monitor.write_to(&mut encoded), Ok(()));
    assert_eq!(encoded[..4], SIGNATURE);
    assert_eq!(encoded[4..8], (expected.len() as u32).to_be_bytes());
    assert_eq!(encoded[8..], expected);
    assert!(
        decode(&encoded[8..]).is_some(),
        "writing an index must preserve its existing v1 fsmonitor extension"
    );
}

#[test]
fn fsmonitor_v2_token_and_dirty_bitmap_roundtrip() {
    let mut dirty = vec![false; 6];
    dirty[1] = true;
    dirty[4] = true;
    let expected = FsMonitor::from_token("awacs-git-v2:owner:filesystem:snapshot:cursor".into(), &dirty)
        .expect("fixture entry count must fit in a Git index bitmap");

    let mut encoded = Vec::new();
    expected.write_to(&mut encoded).expect("small enough");
    let monitor =
        decode(&encoded[8..]).expect("writing an index must preserve its existing v2 fsmonitor extension");
    assert_eq!(
        monitor.token(),
        Some("awacs-git-v2:owner:filesystem:snapshot:cursor".as_bytes()),
        "the opaque fsmonitor cursor must remain unchanged"
    );

    let mut dirty_entries = Vec::new();
    assert_eq!(
        monitor.for_each_dirty_entry(|index| {
            dirty_entries.push(index);
            Some(())
        }),
        Some(()),
        "the serialized dirty-entry bitmap must remain valid"
    );
    assert_eq!(
        dirty_entries,
        vec![1, 4],
        "dirty index positions must survive serialization"
    );
}

#[test]
fn v2_extension_has_the_expected_bytes() {
    let mut dirty = vec![false; 65];
    dirty[0] = true;
    dirty[64] = true;
    let monitor = FsMonitor::from_token(b"t".to_vec(), &dirty).expect("valid");
    let mut out = b"before".to_vec();
    monitor.write_to(&mut out).expect("small enough");

    let mut expected = b"beforeFSMN".to_vec();
    expected.extend_from_slice(&46_u32.to_be_bytes());
    expected.extend_from_slice(&[0, 0, 0, 2, b't', 0]);
    expected.extend_from_slice(&36_u32.to_be_bytes());
    expected.extend_from_slice(&ewah(65, &[2 << 33, 1, 1]));
    assert_eq!(out, expected);
}

#[test]
fn compressed_bitmap_is_written_as_read() {
    // A run of 64 set bits, a run of 64 unset bits, and a literal word.
    let expected = payload(b"\0\0\0\x02cursor\0", &ewah(130, &[(1 << 1) | 1, (1 << 33) | (1 << 1), 0b10]));
    let monitor = decode(&expected).expect("valid");
    let mut positions: Vec<usize> = (0..64).collect();
    positions.push(129);
    assert_eq!(dirty_entries(&monitor), (positions.clone(), true));

    let copy = monitor.clone();
    assert_eq!(dirty_entries(&copy), (positions, true));
    for monitor in [monitor, copy] {
        let mut encoded = Vec::new();
        monitor.write_to(&mut encoded).expect("small enough");
        assert_eq!(encoded[8..], expected);
    }
}

#[test]
fn tokens_with_nul_bytes_are_refused() {
    assert!(FsMonitor::from_token(b"a\0b".to_vec(), &[true]).is_none());
    assert!(FsMonitor::from_token(b"\0".to_vec(), &[]).is_none());
    let monitor = FsMonitor::from_token(Vec::new(), &[]).expect("no bytes are fine");
    assert_eq!(monitor.token(), Some(&b""[..]));
    assert_eq!(dirty_entries(&monitor), (vec![], true));
}

#[test]
fn early_termination_stops_the_iteration() {
    let monitor = FsMonitor::from_token(b"t".to_vec(), &[true, false, true, true]).expect("valid");
    let mut seen = Vec::new();
    let res = monitor.for_each_dirty_entry(|index| {
        seen.push(index);
        if index == 2 {
            None
        } else {
            Some(())
        }
    });
    assert_eq!(res, None);
    assert_eq!(seen, vec![0, 2]);
}

#[test]
fn malformed_bitmaps_are_noticed_while_iterating() {
    // A literal word is announced, but there is none.
    let monitor = decode(&payload(&v1(0), &ewah(2, &[1 << 33]))).expect("all bytes are there");
    assert_eq!(dirty_entries(&monitor), (vec![], false));
    // A bit is set beyond the end, after a run that is fine.
    let monitor =
        decode(&payload(&v1(0), &ewah(65, &[(1 << 33) | (1 << 1) | 1, 0b10]))).expect("all bytes are there");
    assert_eq!(dirty_entries(&monitor), ((0..64).collect(), false));
    // A run is longer than the bitmap.
    let monitor = decode(&payload(&v1(0), &ewah(63, &[(1 << 1) | 1]))).expect("all bytes are there");
    assert_eq!(dirty_entries(&monitor), (vec![], false));
}

#[test]
fn malformed_extensions_are_refused() {
    let bitmap = ewah(1, &[1 << 33, 1]);
    let valid = payload(&v1(7), &bitmap);
    assert!(decode(&valid).is_some());
    for len in 0..valid.len() {
        assert!(decode(&valid[..len]).is_none(), "{len} bytes are not enough");
    }
    let mut extra = valid.clone();
    extra.push(0);
    assert!(decode(&extra).is_none(), "nothing may follow the bitmap");

    let mut oversized_bitmap = bitmap.clone();
    oversized_bitmap.push(0);
    assert!(decode(&payload(&v1(7), &oversized_bitmap)).is_none(), "the size must be exact");

    assert!(decode(&payload(b"\0\0\0\x03cursor\0", &bitmap)).is_none(), "unknown version");
    assert!(decode(b"\0\0\0\x02cursor").is_none(), "missing terminator");
}

#[test]
fn positions_are_visited_in_order_until_told_to_stop() {
    for (stop_at, well_formed, expected, visited) in [
        (None, true, Some(()), vec![0, 2, 3]),
        (None, false, None, vec![0, 2, 3]),
        (Some(2), true, None, vec![0, 2]),
        (Some(0), false, None, vec![0]),
    ] {
        let mut seen = Vec::new();
        let res = for_each_position(&[0, 2, 3], well_formed, |position| {
            seen.push(position);
            if Some(position) == stop_at {
                None
            } else {
                Some(())
            }
        });
        assert_eq!((res, seen), (expected, visited));
    }
    assert_eq!(for_each_position(&[], true, |_| None), Some(()));
}
