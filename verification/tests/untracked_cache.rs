use gix_index::entry::{Stat, Time};
use gix_index::extension::untracked_cache::{
    decode, decode_directory_block, try_decode, write_object_id, write_stat, write_var_int, Allocation, DecodeError,
    SIGNATURE,
};
use gix_index::extension::{UntrackedCache, WriteError};
use gix_index::hash::{Kind, ObjectId};

/// A directory in the form that it has on disk, without attributes.
struct Block<'a> {
    name: &'a str,
    entries: &'a [&'a str],
    children: Vec<Block<'a>>,
}

/// Number `n` in the form that it has on disk, which is a single byte.
fn small(n: usize) -> u8 {
    assert!(n < 128);
    n as u8
}

/// Append `block` and all below it.
fn push_block(out: &mut Vec<u8>, block: &Block<'_>) {
    out.push(small(block.entries.len()));
    out.push(small(block.children.len()));
    out.extend_from_slice(block.name.as_bytes());
    out.push(0);
    for entry in block.entries {
        out.extend_from_slice(entry.as_bytes());
        out.push(0);
    }
    for child in &block.children {
        push_block(out, child);
    }
}

/// A bitmap on disk.
fn ewah(num_bits: u32, words: &[u64]) -> Vec<u8> {
    let mut out = num_bits.to_be_bytes().to_vec();
    out.extend_from_slice(&(words.len() as u32).to_be_bytes());
    for word in words {
        out.extend_from_slice(&word.to_be_bytes());
    }
    out.extend_from_slice(&0_u32.to_be_bytes());
    out
}

/// The bitmap that holds up to 64 bits without compression.
fn literal(num_bits: u32, word: u64) -> Vec<u8> {
    ewah(num_bits, &[1 << 33, word])
}

/// Stat information whose bytes are all different from each other.
fn stat(start: u8) -> (Stat, Vec<u8>) {
    let bytes: Vec<u8> = (start..start + 36).collect();
    let number = |index: usize| {
        u32::from_be_bytes([bytes[4 * index], bytes[4 * index + 1], bytes[4 * index + 2], bytes[4 * index + 3]])
    };
    let stat = Stat {
        ctime: Time { secs: number(0), nsecs: number(1) },
        mtime: Time { secs: number(2), nsecs: number(3) },
        dev: number(4),
        ino: number(5),
        uid: number(6),
        gid: number(7),
        size: number(8),
    };
    (stat, bytes)
}

/// The header of a cache with the given files, each of which may be absent.
fn header(hash_len: usize, info_exclude: Option<u8>, excludes_file: Option<u8>, num_directories: usize) -> Vec<u8> {
    let mut out = vec![8];
    out.extend_from_slice(b"/a Linux");
    for file in [info_exclude, excludes_file] {
        match file {
            Some(start) => out.extend_from_slice(&stat(start).1),
            None => out.extend_from_slice(&[0; 36]),
        }
    }
    out.extend_from_slice(&[0, 0, 0, 6]);
    for file in [info_exclude, excludes_file] {
        out.extend(vec![file.unwrap_or(0); hash_len]);
    }
    out.extend_from_slice(b".gitignore\0");
    out.push(small(num_directories));
    out
}

/// A cache without directories.
fn empty() -> Vec<u8> {
    header(20, None, None, 0)
}

/// A cache with the root directory only.
fn populated() -> Vec<u8> {
    let mut out = header(20, Some(1), None, 1);
    push_block(&mut out, &Block { name: "", entries: &["new", "other/"], children: vec![] });
    out.extend(literal(1, 1));
    out.extend(literal(1, 0));
    out.extend(literal(1, 0));
    out.extend(stat(50).1);
    out.push(0);
    out
}

/// A cache with directories within each other, and digests of `hash_len` bytes.
fn nested(hash_len: usize) -> Vec<u8> {
    let mut out = header(hash_len, Some(1), Some(2), 5);
    push_block(
        &mut out,
        &Block {
            name: "",
            entries: &["new"],
            children: vec![
                Block {
                    name: "a",
                    entries: &["x", "y", "z"],
                    children: vec![Block { name: "b", entries: &[], children: vec![] }],
                },
                Block { name: "c", entries: &[], children: vec![] },
                Block { name: "d", entries: &["w"], children: vec![] },
            ],
        },
    );
    out.extend(literal(5, 0b01101));
    out.extend(literal(5, 0b10010));
    out.extend(literal(5, 0b10100));
    for start in [10, 60, 110] {
        out.extend(stat(start).1);
    }
    out.extend(vec![0xaa; hash_len]);
    out.extend(vec![0xbb; hash_len]);
    out.push(0);
    out
}

/// A flat cache with `count` directories below the root, where bitmaps are given as they are on disk.
fn flat(count: usize, bitmaps: [Vec<u8>; 3]) -> Vec<u8> {
    let mut out = header(20, None, None, count + 1);
    let children = (0..count).map(|_| Block { name: "n", entries: &[], children: vec![] }).collect();
    push_block(&mut out, &Block { name: "", entries: &[], children });
    for bitmap in bitmaps {
        out.extend(bitmap);
    }
    out
}

/// The payload that `cache` is written to.
fn payload(cache: &UntrackedCache, kind: Kind) -> Vec<u8> {
    let mut out = Vec::new();
    cache.write_to(&mut out, kind).expect("small enough");
    assert_eq!(out[..4], SIGNATURE);
    assert_eq!(out[4..8], (out.len() as u32 - 8).to_be_bytes());
    out[8..].to_vec()
}

#[test]
fn untracked_cache_extensions_roundtrip() {
    for (fixture, kind) in [
        (empty(), Kind::Sha1),
        (populated(), Kind::Sha1),
        (nested(20), Kind::Sha1),
        (nested(32), Kind::Sha256),
    ] {
        let expected_cache =
            decode(&fixture, kind, None).expect("each fixture must contain an untracked-cache extension");
        let encoded = payload(&expected_cache, kind);
        let actual_cache =
            decode(&encoded, kind, None).expect("writing an index must preserve its untracked-cache extension");
        assert_eq!(
            format!("{actual_cache:?}"),
            format!("{expected_cache:?}"),
            "the identifier, exclude metadata, directory graph, bitmaps, stats, and object IDs must survive"
        );
        assert_eq!(encoded, fixture, "these bitmaps are not compressed in the first place");
    }
}

#[test]
fn all_fields_are_decoded() {
    let cache = decode(&nested(20), Kind::Sha1, None).expect("valid");
    assert_eq!(cache.identifier(), b"/a Linux");
    assert_eq!(cache.dir_flags(), 6);
    assert_eq!(cache.exclude_filename_per_dir(), b".gitignore");
    let info_exclude = cache.info_exclude().expect("present");
    assert_eq!(info_exclude.stat(), &stat(1).0);
    assert_eq!(info_exclude.id(), ObjectId::Sha1([1; 20]));
    let excludes_file = cache.excludes_file().expect("present");
    assert_eq!(excludes_file.stat(), &stat(2).0);
    assert_eq!(excludes_file.id(), ObjectId::Sha1([2; 20]));

    let directories = cache.directories();
    let names: Vec<_> = directories.iter().map(|directory| directory.name()).collect();
    assert_eq!(names, [&b""[..], b"a", b"b", b"c", b"d"]);
    let sub_directories: Vec<_> = directories.iter().map(|directory| directory.sub_directories()).collect();
    assert_eq!(sub_directories, [&[1, 3, 4][..], &[2], &[], &[], &[]]);
    let entries: Vec<_> = directories.iter().map(|directory| directory.untracked_entries().len()).collect();
    assert_eq!(entries, [1, 3, 0, 0, 1]);
    assert_eq!(directories[1].untracked_entries(), [b"x".to_vec(), b"y".to_vec(), b"z".to_vec()]);
    let stats: Vec<_> = directories.iter().map(|directory| directory.stat().copied()).collect();
    assert_eq!(stats, [Some(stat(10).0), None, Some(stat(60).0), Some(stat(110).0), None]);
    let check_only: Vec<_> = directories.iter().map(|directory| directory.check_only()).collect();
    assert_eq!(check_only, [false, true, false, false, true]);
    let oids: Vec<_> = directories.iter().map(|directory| directory.exclude_file_oid()).collect();
    assert_eq!(
        oids,
        [None, None, Some(ObjectId::Sha1([0xaa; 20])), None, Some(ObjectId::Sha1([0xbb; 20]))]
    );

    let copy = cache.clone();
    assert_eq!(format!("{copy:?}"), format!("{cache:?}"));
}

#[test]
fn files_with_null_ids_are_absent() {
    let cache = decode(&populated(), Kind::Sha1, None).expect("valid");
    assert!(cache.info_exclude().is_some());
    assert!(cache.excludes_file().is_none());
    let cache = decode(&empty(), Kind::Sha1, None).expect("valid");
    assert!(cache.info_exclude().is_none());
    assert!(cache.directories().is_empty());

    let mut with_stat_but_no_id = empty();
    with_stat_but_no_id[10] = 1;
    let cache = decode(&with_stat_but_no_id, Kind::Sha1, None).expect("valid");
    assert!(cache.info_exclude().is_none());
    assert_eq!(payload(&cache, Kind::Sha1), empty(), "stat information without id is lost");
}

#[test]
fn compressed_bitmaps_are_decoded_and_written_without_compression() {
    // The first 64 of 65 directories are check-only, in a single run.
    let bitmaps = [ewah(65, &[1 << 1]), ewah(65, &[(1 << 1) | 1]), ewah(0, &[])];
    let mut data = flat(64, bitmaps);
    data.push(0);
    let cache = decode(&data, Kind::Sha1, None).expect("valid");
    let check_only = cache.directories().iter().filter(|directory| directory.check_only()).count();
    assert_eq!((check_only, cache.directories().len()), (64, 65));
    assert!(!cache.directories()[64].check_only());

    let encoded = payload(&cache, Kind::Sha1);
    let bitmaps = [
        ewah(65, &[2 << 33, 0, 0]),
        ewah(65, &[2 << 33, u64::MAX, 0]),
        ewah(65, &[2 << 33, 0, 0]),
    ];
    let mut expected = flat(64, bitmaps);
    expected.push(0);
    assert_eq!(encoded, expected);
    let again = decode(&encoded, Kind::Sha1, None).expect("valid");
    assert_eq!(format!("{again:?}"), format!("{cache:?}"));
}

#[test]
fn each_directory_is_written_with_all_below_it() {
    let cache = decode(&nested(20), Kind::Sha1, None).expect("valid");
    let mut out = b"before".to_vec();
    assert_eq!(cache.write_directory(&mut out, 1), Ok(()));
    assert_eq!(out, b"before\x03\x01a\0x\0y\0z\0\x00\x00b\0");
    let mut out = Vec::new();
    assert_eq!(cache.write_directory(&mut out, 4), Ok(()));
    assert_eq!(out, b"\x01\x00d\0w\0");
}

#[test]
fn directories_that_do_not_exist_are_not_written() {
    let cache = decode(&nested(20), Kind::Sha1, None).expect("valid");
    let mut out = b"before".to_vec();
    assert_eq!(cache.write_directory(&mut out, 5), Err(WriteError::InvalidDirectory));
    assert_eq!(out, b"before");
    let cache = decode(&empty(), Kind::Sha1, None).expect("valid");
    assert_eq!(cache.write_directory(&mut out, 0), Err(WriteError::InvalidDirectory));
}

#[test]
fn allocation_limit_only_refuses() {
    let data = nested(20);
    let unlimited = decode(&data, Kind::Sha1, None).expect("valid");
    let per_directory = std::mem::size_of::<gix_index::extension::untracked_cache::Directory>();
    assert!(decode(&data, Kind::Sha1, Some(0)).is_none());
    assert!(decode(&data, Kind::Sha1, Some(5 * per_directory - 1)).is_none());
    for limit in [5 * per_directory, usize::MAX] {
        let limited = decode(&data, Kind::Sha1, Some(limit)).expect("within the limit");
        assert_eq!(format!("{limited:?}"), format!("{unlimited:?}"));
    }
    assert!(decode(&empty(), Kind::Sha1, Some(0)).is_some(), "no list is needed");
}

#[test]
fn memory_is_obtained_either_way() {
    let data = nested(20);
    let upfront = try_decode(&data, Kind::Sha1, None, Allocation::Upfront).expect("valid");
    let growing = try_decode(&data, Kind::Sha1, None, Allocation::Growing).expect("valid");
    assert_eq!(format!("{upfront:?}"), format!("{growing:?}"));
    for allocation in [Allocation::Upfront, Allocation::Growing] {
        assert!(matches!(try_decode(b"", Kind::Sha1, None, allocation), Err(DecodeError::Malformed)));
        assert!(matches!(try_decode(&data, Kind::Sha1, Some(8), allocation), Err(DecodeError::Malformed)));
    }
}

#[test]
fn truncated_caches_are_refused() {
    for fixture in [empty(), populated(), nested(20)] {
        for len in 0..fixture.len() {
            assert!(decode(&fixture[..len], Kind::Sha1, None).is_none(), "{len} bytes are not enough");
        }
        let mut extra = fixture;
        extra.push(0);
        assert!(decode(&extra, Kind::Sha1, None).is_none(), "nothing may follow");
    }
    assert!(decode(&nested(32), Kind::Sha1, None).is_none(), "ids are of another kind");
}

#[test]
fn last_byte_must_be_nul() {
    let mut data = nested(20);
    let last = data.len() - 1;
    data[last] = 1;
    assert!(decode(&data, Kind::Sha1, None).is_none());
}

#[test]
fn directory_counts_must_be_exact() {
    let offset = header(20, None, None, 0).len() - 1;
    for (count, valid) in [(4, false), (5, true), (6, false), (127, false)] {
        let mut data = nested(20);
        data[offset] = count;
        assert_eq!(decode(&data, Kind::Sha1, None).is_some(), valid, "{count} directories");
    }
}

#[test]
fn bitmaps_must_fit_the_directories() {
    let fitting = || literal(2, 0);
    let refused = [
        [literal(3, 0), fitting(), fitting()],
        [fitting(), literal(3, 0), fitting()],
        [fitting(), fitting(), literal(3, 0)],
        [fitting(), ewah(2, &[1 << 33]), fitting()],
        [fitting(), literal(2, 0b100), fitting()],
        [literal(2, 0b1), fitting(), fitting()],
        [fitting(), fitting(), literal(2, 0b1)],
    ];
    for bitmaps in refused {
        let mut data = flat(1, bitmaps);
        data.push(0);
        assert!(decode(&data, Kind::Sha1, None).is_none());
    }
    let mut data = flat(1, [fitting(), fitting(), fitting()]);
    data.push(0);
    assert!(decode(&data, Kind::Sha1, None).is_some());
}

#[test]
fn implausible_amounts_of_entries_are_refused() {
    // The root announces more entries, or sub-directories, than half the bytes that follow its name.
    for block in [&b"\x7f\x00\0"[..], b"\x00\x7f\0", b"\xfe\xfe\xfe\xfe\xfe\xfe\xfe\xfe\x7f\x00\0"] {
        let mut data = header(20, None, None, 1);
        data.extend_from_slice(block);
        for _ in 0..3 {
            data.extend(literal(1, 0));
        }
        data.push(0);
        assert!(decode(&data, Kind::Sha1, None).is_none());
    }
}

#[test]
fn many_empty_names_may_be_read_but_once() {
    // 100 entries without a name are accepted due to a lot of bytes that follow, which the bitmap does not need.
    let mut data = header(20, None, None, 1);
    data.extend_from_slice(&[100, 0, 0]);
    data.extend_from_slice(&[0; 100]);
    data.extend(ewah(1, &[0; 8]));
    data.extend(literal(1, 0));
    data.extend(literal(1, 0));
    data.push(0);
    let cache = decode(&data, Kind::Sha1, None).expect("enough bytes follow");
    assert_eq!(cache.directories()[0].untracked_entries().len(), 100);
    let encoded = payload(&cache, Kind::Sha1);
    assert!(encoded.len() < data.len());
    assert!(decode(&encoded, Kind::Sha1, None).is_none(), "too few bytes follow");
}

#[test]
fn variable_length_integers_are_written() {
    for (value, expected) in [
        (0, &[0x00][..]),
        (127, &[0x7f]),
        (128, &[0x80, 0x00]),
        (16_511, &[0xff, 0x7f]),
        (16_512, &[0x80, 0x80, 0x00]),
    ] {
        let mut out = vec![0xaa];
        write_var_int(&mut out, value);
        assert_eq!(out[0], 0xaa);
        assert_eq!(&out[1..], expected, "{value}");
    }
    for value in [usize::MAX, usize::MAX / 2, 1 << 31, 1_000_000] {
        let mut out = Vec::new();
        write_var_int(&mut out, value);
        assert_eq!(gix_index::util::var_int(&out), Some((value as u64, &[][..])));
    }
}

#[test]
fn stat_information_and_ids_are_written() {
    let (value, bytes) = stat(7);
    let mut out = Vec::new();
    write_stat(&mut out, Some(&value));
    assert_eq!(out, bytes);
    assert_eq!(gix_index::decode::stat(&out), Some((value, &[][..])));
    assert_eq!(gix_index::decode::stat(&out[1..]), None);

    let mut out = Vec::new();
    write_stat(&mut out, None);
    assert_eq!(out, [0; 36]);
    assert_eq!(gix_index::decode::stat(&out), Some((Stat::default(), &[][..])));

    let mut out = Vec::new();
    write_object_id(&mut out, Some(ObjectId::Sha1([3; 20])), Kind::Sha1);
    write_object_id(&mut out, None, Kind::Sha256);
    assert_eq!(out[..20], [3; 20]);
    assert_eq!(out[20..], [0; 32]);
}

#[test]
fn each_directory_has_one_parent() {
    let cache = decode(&nested(20), Kind::Sha1, None).expect("valid");
    let directories = cache.directories();
    let mut listed: Vec<usize> = Vec::new();
    for (index, directory) in directories.iter().enumerate() {
        if let Some(first) = directory.sub_directories().first() {
            assert_eq!(*first, index + 1);
        }
        assert!(directory.sub_directories().windows(2).all(|pair| pair[0] < pair[1]));
        listed.extend(directory.sub_directories());
    }
    listed.sort_unstable();
    assert_eq!(listed, [1, 2, 3, 4]);
}

#[test]
fn directory_blocks_are_added_to_what_is_there() {
    for allocation in [Allocation::Upfront, Allocation::Growing] {
        let data = [2, 0, 0, b'a', 0, b'b', 0];
        let mut directories = Vec::new();
        assert!(decode_directory_block(&data, &mut directories, Some(0), allocation).is_err());
        assert!(directories.is_empty(), "the limit refuses the block");

        let rest = decode_directory_block(&data, &mut directories, None, allocation).expect("valid");
        assert!(rest.is_empty());
        assert_eq!(directories.len(), 1);
        assert_eq!(directories[0].name(), b"");
        assert_eq!(directories[0].untracked_entries(), [b"a".to_vec(), b"b".to_vec()]);
        assert!(directories[0].sub_directories().is_empty());

        let too_many = [3, 0, 0, 0, 0, 0, b'z', 0];
        let res = decode_directory_block(&too_many, &mut directories, None, allocation);
        assert!(matches!(res, Err(DecodeError::Malformed)));
        assert_eq!(directories.len(), 1, "what was there remains");
        assert_eq!(directories[0].untracked_entries().len(), 2);
    }
}

#[test]
fn written_directories_are_read_back() {
    let cache = decode(&nested(20), Kind::Sha1, None).expect("valid");
    let mut data = Vec::new();
    cache.write_directory(&mut data, 0).expect("all exist");
    data.extend_from_slice(b"rest");
    let mut directories = Vec::new();
    let rest = decode_directory_block(&data, &mut directories, None, Allocation::Upfront).expect("valid");
    assert_eq!(rest, b"rest");
    assert_eq!(directories.len(), cache.directories().len());
    for (actual, expected) in directories.iter().zip(cache.directories()) {
        assert_eq!(actual.name(), expected.name());
        assert_eq!(actual.untracked_entries(), expected.untracked_entries());
        assert_eq!(actual.sub_directories(), expected.sub_directories());
        assert!(actual.stat().is_none() && actual.exclude_file_oid().is_none() && !actual.check_only());
    }
}

#[test]
fn larger_numbers_have_later_representations() {
    let values = [0, 1, 127, 128, 129, 255, 256, 16_511, 16_512, 2_113_663, 2_113_664, 1 << 30];
    for pair in values.windows(2) {
        let (mut smaller, mut larger) = (Vec::new(), Vec::new());
        write_var_int(&mut smaller, pair[0]);
        write_var_int(&mut larger, pair[1]);
        assert!(smaller.len() <= larger.len());
        assert!(!larger.starts_with(&smaller) && !smaller.starts_with(&larger));
        if smaller.len() == larger.len() {
            assert!(smaller < larger);
        }
    }
}
