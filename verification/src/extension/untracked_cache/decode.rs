//! Decoding of an untracked cache.

use std::collections::TryReserveError;

use vstd::prelude::*;

use crate::bitmap::bitmap_from_bytes;
use crate::bitmap::bitmap_num_bits;
use crate::bitmap::bitmap_set_bits;
use crate::bitmap::bitmap_view;
use crate::bitmap::is_ascending;
use crate::decode::stat;
use crate::entry::stat_value;
use crate::entry::STAT_LEN;
use crate::extension::untracked_cache::directory_views;
use crate::extension::untracked_cache::format::assembled;
use crate::extension::untracked_cache::format::attributes_parsed;
use crate::extension::untracked_cache::format::bitmaps_fit;
use crate::extension::untracked_cache::format::bitmaps_parsed;
use crate::extension::untracked_cache::format::block_counts_parsed;
use crate::extension::untracked_cache::format::block_head_parsed;
use crate::extension::untracked_cache::format::cache_parsed;
use crate::extension::untracked_cache::format::checked_header_parsed;
use crate::extension::untracked_cache::format::directory_parsed;
use crate::extension::untracked_cache::format::exceeds_limit;
use crate::extension::untracked_cache::format::header_parsed;
use crate::extension::untracked_cache::format::identifier_parsed;
use crate::extension::untracked_cache::format::is_plain;
use crate::extension::untracked_cache::format::lemma_block_head_shrinks;
use crate::extension::untracked_cache::format::lemma_directories_are_announced;
use crate::extension::untracked_cache::format::lemma_directory_is_plain;
use crate::extension::untracked_cache::format::lemma_directory_shrinks;
use crate::extension::untracked_cache::format::lemma_strings_parsed;
use crate::extension::untracked_cache::format::lemma_value_of_next;
use crate::extension::untracked_cache::format::plain_directory;
use crate::extension::untracked_cache::format::present_file;
use crate::extension::untracked_cache::format::strings_parsed;
use crate::extension::untracked_cache::format::sub_directories_parsed;
use crate::extension::untracked_cache::format::value_of;
use crate::extension::untracked_cache::format::Bitmaps;
use crate::extension::untracked_cache::format::BlockHead;
use crate::extension::untracked_cache::format::Header;
use crate::extension::untracked_cache::memory::cache_is_granted;
use crate::extension::untracked_cache::memory::cache_is_refused;
use crate::extension::untracked_cache::memory::directory_is_granted;
use crate::extension::untracked_cache::memory::directory_is_refused;
use crate::extension::untracked_cache::memory::is_granted;
use crate::extension::untracked_cache::memory::is_refused;
use crate::extension::untracked_cache::memory::sub_directories_are_granted;
use crate::extension::untracked_cache::memory::sub_directories_are_refused;
use crate::extension::untracked_cache::oid_stat_view;
use crate::extension::untracked_cache::structure::is_acyclic;
use crate::extension::untracked_cache::structure::is_tree;
use crate::extension::untracked_cache::structure::law_tree_is_acyclic;
use crate::extension::untracked_cache::structure::lemma_parsed_tree;
use crate::extension::untracked_cache::Directory;
use crate::extension::untracked_cache::DirectoryView;
use crate::extension::untracked_cache::OidStat;
use crate::extension::untracked_cache::UntrackedCache;
use crate::hash::digest_len;
use crate::hash::Kind;
use crate::hash::ObjectId;
use crate::util::owned;
use crate::util::read_u32;
use crate::util::split_at_byte_exclusive;
use crate::util::split_at_checked;
use crate::util::split_bytes;
use crate::util::var_int;

verus! {

/// Why an untracked cache could not be decoded.
#[derive(Clone, Copy, Debug, PartialEq, Eq, Structural)]
pub enum DecodeError {
    /// The data does not follow the format or exceeds the allocation limit.
    Malformed,
    /// The allocator refused to provide the memory that is needed.
    OutOfMemory,
}

/// How memory for lists is obtained.
#[derive(Clone, Copy, Debug, PartialEq, Eq, Structural)]
pub enum Allocation {
    /// Ask for all the memory that a list needs before it is filled, and fail if there is none.
    Upfront,
    /// Let lists grow while they are filled.
    Growing,
}

/// Return what `f` answers when `list` and `additional` are handed to it.
fn ask<T, F: FnOnce(&mut Vec<T>, usize) -> Result<(), TryReserveError>>(
    list: &mut Vec<T>,
    additional: usize,
    f: F,
) -> (res: Result<(), TryReserveError>)
    requires
        forall|asked: &mut Vec<T>| #[trigger] call_requires(f, (asked, additional)),
    ensures
        exists|asked: &mut Vec<T>| #[trigger]
            call_ensures(f, (asked, additional), res) && *asked == *old(list) && *final(asked) == *final(list),
{
    f(list, additional)
}

/// Return true if `list` can be filled with `additional` values, after asking for the memory if `allocation` says so.
fn reserve<T>(list: &mut Vec<T>, additional: usize, allocation: Allocation) -> (res: bool)
    ensures
        final(list)@ == old(list)@,
        match allocation {
            Allocation::Upfront => if res {
                is_granted::<T>(additional)
            } else {
                is_refused::<T>(additional)
            },
            Allocation::Growing => res,
        },
{
    match allocation {
        Allocation::Upfront => ask(list, additional, Vec::<T>::try_reserve).is_ok(),
        Allocation::Growing => true,
    }
}

/// Return whether memory for `count` values of `size` bytes each exceeds `limit`, if there is one.
fn is_over_limit(count: usize, size: usize, limit: Option<usize>) -> (res: bool)
    ensures
        res == exceeds_limit(count as int, size as nat, limit),
{
    match limit {
        Some(limit) => match count.checked_mul(size) {
            Some(bytes) => bytes > limit,
            None => usize::MAX > limit,
        },
        None => false,
    }
}

/// Read `count` NUL-terminated strings off the front of `data`.
fn decode_strings(data: &[u8], count: usize, allocation: Allocation) -> (res: Result<
    (Vec<Vec<u8>>, &[u8]),
    DecodeError,
>)
    ensures
        match res {
            Ok((strings, rest)) => strings_parsed(data@, count as nat) == Some(
                (strings@.map_values(|string: Vec<u8>| string@), rest@),
            ),
            Err(DecodeError::Malformed) => strings_parsed(data@, count as nat) is None,
            Err(DecodeError::OutOfMemory) => allocation == Allocation::Upfront && is_refused::<Vec<u8>>(count),
        },
        res is Ok && allocation == Allocation::Upfront ==> is_granted::<Vec<u8>>(count),
{
    let mut strings: Vec<Vec<u8>> = Vec::new();
    if !reserve(&mut strings, count, allocation) {
        return Err(DecodeError::OutOfMemory);
    }
    let mut rest: &[u8] = data;
    let mut read: usize = 0;
    assert(strings@.map_values(|string: Vec<u8>| string@) =~= Seq::empty());
    while read < count
        invariant
            read <= count,
            strings_parsed(data@, read as nat) == Some((strings@.map_values(|string: Vec<u8>| string@), rest@)),
            allocation == Allocation::Upfront ==> is_granted::<Vec<u8>>(count),
        decreases count - read,
    {
        match split_at_byte_exclusive(rest, 0) {
            Some((string, tail)) => {
                let ghost before = strings@.map_values(|string: Vec<u8>| string@);
                strings.push(owned(string));
                assert(strings@.map_values(|string: Vec<u8>| string@) =~= before.push(string@));
                rest = tail;
            },
            None => {
                proof {
                    lemma_strings_parsed(
                        data@,
                        (read + 1) as nat,
                        count as nat,
                    );
                }
                return Err(DecodeError::Malformed);
            },
        }
        read = read + 1;
    }
    Ok((strings, rest))
}

/// The part of a directory block that precedes the blocks of sub-directories.
struct DecodedHead {
    name: Vec<u8>,
    untracked_entries: Vec<Vec<u8>>,
    num_dirs: usize,
}

impl DecodedHead {
    spec fn describes(self, head: BlockHead) -> bool {
        &&& self.name@ == head.name
        &&& self.untracked_entries@.map_values(|entry: Vec<u8>| entry@) == head.untracked_entries
        &&& self.num_dirs == head.num_sub_directories
    }
}

/// Read a block head off the front of `data`.
fn decode_block_head(data: &[u8], alloc_limit_bytes: Option<usize>, allocation: Allocation) -> (res: Result<
    (DecodedHead, &[u8]),
    DecodeError,
>)
    ensures
        match res {
            Ok((decoded, rest)) => block_head_parsed(data@, alloc_limit_bytes) matches Some((head, tail))
                && decoded.describes(head) && tail == rest@,
            Err(DecodeError::Malformed) => block_head_parsed(data@, alloc_limit_bytes) is None,
            Err(DecodeError::OutOfMemory) => {
                &&& allocation == Allocation::Upfront
                &&& block_counts_parsed(data@, alloc_limit_bytes) matches Some((counts, _))
                &&& is_refused::<Vec<u8>>(counts.num_untracked as usize)
            },
        },
        res is Ok && allocation == Allocation::Upfront ==> {
            &&& block_counts_parsed(data@, alloc_limit_bytes) matches Some((counts, _))
            &&& is_granted::<Vec<u8>>(counts.num_untracked as usize)
        },
{
    let (num_untracked, data) = match var_int(data) {
        Some(parsed) => parsed,
        None => return Err(DecodeError::Malformed),
    };
    let (num_dirs, data) = match var_int(data) {
        Some(parsed) => parsed,
        None => return Err(DecodeError::Malformed),
    };
    let (name, data) = match split_at_byte_exclusive(data, 0) {
        Some(parsed) => parsed,
        None => return Err(DecodeError::Malformed),
    };
    // Untracked names are encoded as `name\0name\0...`, and we assume names are non-empty:
    // `a\0b\0` is 4 bytes for 2 entries, so each entry needs at least 2 bytes.
    let max_entries_from_remaining_data: u64 = (data.len() / 2) as u64;
    if num_untracked > max_entries_from_remaining_data || num_dirs > max_entries_from_remaining_data {
        return Err(DecodeError::Malformed);
    }
    let num_untracked: usize = num_untracked as usize;
    let num_dirs: usize = num_dirs as usize;
    if is_over_limit(num_untracked, core::mem::size_of::<Vec<u8>>(), alloc_limit_bytes) || is_over_limit(
        num_dirs,
        core::mem::size_of::<usize>(),
        alloc_limit_bytes,
    ) {
        return Err(DecodeError::Malformed);
    }
    match decode_strings(data, num_untracked, allocation) {
        Ok((untracked_entries, rest)) => Ok((DecodedHead { name: owned(name), untracked_entries, num_dirs }, rest)),
        Err(err) => Err(err),
    }
}

/// Read a directory block off the front of `data`, and add the directory and all below it to `directories`.
///
/// What `directories` held before stays in front, even if that fails.
#[verifier::rlimit(40)]
pub fn decode_directory_block<'a>(
    data: &'a [u8],
    directories: &mut Vec<Directory>,
    alloc_limit_bytes: Option<usize>,
    allocation: Allocation,
) -> (res: Result<&'a [u8], DecodeError>)
    ensures
        match res {
            Ok(rest) => directory_parsed(data@, old(directories)@.len(), alloc_limit_bytes) matches Some((added, tail))
                && tail == rest@ && directory_views(final(directories)@) == directory_views(old(directories)@) + added,
            Err(DecodeError::Malformed) => directory_parsed(data@, old(directories)@.len(), alloc_limit_bytes) is None,
            Err(DecodeError::OutOfMemory) => allocation == Allocation::Upfront && directory_is_refused(
                data@,
                old(directories)@.len(),
                alloc_limit_bytes,
            ),
        },
        res is Ok && allocation == Allocation::Upfront ==> directory_is_granted(
            data@,
            old(directories)@.len(),
            alloc_limit_bytes,
        ),
        res is Err ==> {
            &&& final(directories)@.len() >= old(directories)@.len()
            &&& directory_views(final(directories)@).subrange(0, old(directories)@.len() as int) == directory_views(
                old(directories)@,
            )
            &&& block_head_parsed(data@, alloc_limit_bytes) is None ==> final(directories)@ == old(directories)@
        },
    decreases data.len(),
{
    let (head, mut rest) = match decode_block_head(data, alloc_limit_bytes, allocation) {
        Ok(parsed) => parsed,
        Err(err) => {
            assert(directory_views(directories@).subrange(0, directories@.len() as int) =~= directory_views(
                old(directories)@,
            ));
            return Err(err);
        },
    };
    let num_dirs: usize = head.num_dirs;
    let index: usize = directories.len();
    let ghost (spec_head, spec_tail) = block_head_parsed(data@, alloc_limit_bytes)->0;
    let ghost before = directory_views(directories@);
    proof {
        lemma_block_head_shrinks(data@, alloc_limit_bytes);
    }
    let mut sub_directories: Vec<usize> = Vec::new();
    if !reserve(&mut sub_directories, num_dirs, allocation) {
        assert(before.subrange(0, index as int) =~= before);
        return Err(DecodeError::OutOfMemory);
    }
    directories.push(
        Directory {
            name: head.name,
            untracked_entries: head.untracked_entries,
            sub_directories: Vec::new(),
            // the following are set later through their bitmaps
            stat: None,
            exclude_file_oid: None,
            check_only: false,
        },
    );
    let ghost mut below: Seq<DirectoryView> = Seq::empty();
    let ghost all = sub_directories_parsed(spec_tail, (index + 1) as nat, num_dirs as nat, alloc_limit_bytes);
    let mut read: usize = 0;
    proof {
        assert(directory_views(directories@) =~= before.push(plain_directory(spec_head, Seq::empty())) + below);
        if let Some((indices, added, tail)) = all {
            assert(sub_directories@ + indices =~= indices);
            assert(below + added =~= added);
        }
    }
    while read < num_dirs
        invariant
            read <= num_dirs,
            rest@.len() < data@.len(),
            index == old(directories)@.len(),
            before == directory_views(old(directories)@),
            block_head_parsed(data@, alloc_limit_bytes) == Some((spec_head, spec_tail)),
            spec_head.num_sub_directories == num_dirs,
            all == sub_directories_parsed(spec_tail, (index + 1) as nat, num_dirs as nat, alloc_limit_bytes),
            directory_views(directories@) == before.push(plain_directory(spec_head, Seq::empty())) + below,
            allocation == Allocation::Upfront ==> is_granted::<usize>(num_dirs) && is_granted::<Vec<u8>>(
                (block_counts_parsed(data@, alloc_limit_bytes)->0).0.num_untracked as usize,
            ),
            sub_directories_are_refused(rest@, directories@.len(), (num_dirs - read) as nat, alloc_limit_bytes)
                ==> sub_directories_are_refused(spec_tail, (index + 1) as nat, num_dirs as nat, alloc_limit_bytes),
            allocation == Allocation::Upfront && sub_directories_are_granted(
                rest@,
                directories@.len(),
                (num_dirs - read) as nat,
                alloc_limit_bytes,
            ) ==> sub_directories_are_granted(spec_tail, (index + 1) as nat, num_dirs as nat, alloc_limit_bytes),
            all == (match sub_directories_parsed(
                rest@,
                directories@.len(),
                (num_dirs - read) as nat,
                alloc_limit_bytes,
            ) {
                Some((indices, added, tail)) => Some((sub_directories@ + indices, below + added, tail)),
                None => None,
            }),
        decreases num_dirs - read,
    {
        let subdir_index: usize = directories.len();
        let ghost old_rest = rest@;
        let ghost old_indices = sub_directories@;
        let ghost old_below = below;
        let ghost entered = directory_views(directories@);
        assert(entered.len() == subdir_index && before.len() == index);
        match decode_directory_block(rest, directories, alloc_limit_bytes, allocation) {
            Ok(tail) => {
                proof {
                    let (added, _) = directory_parsed(old_rest, subdir_index as nat, alloc_limit_bytes)->0;
                    lemma_directory_shrinks(
                        old_rest,
                        subdir_index as nat,
                        alloc_limit_bytes,
                    );
                    below = below + added;
                    assert(directory_views(directories@) =~= before.push(plain_directory(spec_head, Seq::empty()))
                        + below);
                    if let Some((indices, more, end)) = sub_directories_parsed(
                        tail@,
                        directories@.len(),
                        (num_dirs - read - 1) as nat,
                        alloc_limit_bytes,
                    ) {
                        assert(old_indices + (seq![subdir_index] + indices) =~= old_indices.push(subdir_index)
                            + indices);
                        assert(old_below + (added + more) =~= below + more);
                    }
                }
                rest = tail;
            },
            Err(err) => {
                assert(directory_views(directories@).subrange(0, index as int) =~= entered.subrange(0, index as int));
                assert(entered.subrange(0, index as int) =~= before);
                return Err(err);
            },
        }
        sub_directories.push(subdir_index);
        read = read + 1;
    }
    proof {
        assert(sub_directories@ + Seq::<usize>::empty() =~= sub_directories@);
        assert(below + Seq::<DirectoryView>::empty() =~= below);
        assert(all == Some((sub_directories@, below, rest@)));
    }
    let ghost indices = sub_directories@;
    let ghost without_indices = directories@;
    directories[index].sub_directories = sub_directories;
    proof {
        let added = seq![plain_directory(spec_head, indices)] + below;
        assert(directory_views(without_indices)[index as int] == plain_directory(spec_head, Seq::empty()));
        assert(directories@[index as int]@ == plain_directory(spec_head, indices));
        assert forall|i: int| 0 <= i < directories@.len() && i != index implies directory_views(directories@)[i]
            == directory_views(without_indices)[i] by {
            assert(directories@[i] == without_indices[i]);
        }
        let plain = before.push(plain_directory(spec_head, Seq::empty())) + below;
        assert forall|i: int| 0 <= i < directories@.len() implies directory_views(directories@)[i] == (before
            + added)[i] by {
            if i == index {
                assert((before + added)[i] == added[0]);
            } else if i < index {
                assert(plain[i] == before[i]);
            } else {
                assert(plain[i] == below[i - index - 1]);
                assert((before + added)[i] == added[i - index]);
            }
        }
        assert(directory_views(directories@) =~= before + added);
    }
    Ok(rest)
}

/// The part of an untracked cache that precedes the directories.
struct DecodedHeader {
    identifier: Vec<u8>,
    info_exclude: OidStat,
    excludes_file: OidStat,
    exclude_filename_per_dir: Vec<u8>,
    dir_flags: u32,
    num_directory_blocks: u64,
}

impl DecodedHeader {
    spec fn describes(self, header: Header) -> bool {
        &&& self.identifier@ == header.identifier
        &&& self.info_exclude.stat == header.info_exclude_stat
        &&& self.excludes_file.stat == header.excludes_file_stat
        &&& self.dir_flags == header.dir_flags
        &&& self.info_exclude.id@ == header.info_exclude_id
        &&& self.excludes_file.id@ == header.excludes_file_id
        &&& self.exclude_filename_per_dir@ == header.exclude_filename_per_dir
        &&& self.num_directory_blocks == header.num_directories
    }
}

/// Read an identifier off the front of `data`, which is preceded by its length.
fn decode_identifier(data: &[u8]) -> (res: Option<(&[u8], &[u8])>)
    ensures
        match res {
            Some((identifier, rest)) => identifier_parsed(data@) == Some((identifier@, rest@)),
            None => identifier_parsed(data@) is None,
        },
{
    let (identifier_len, data) = var_int(data)?;
    if identifier_len > data.len() as u64 {
        return None;
    }
    split_at_checked(data, identifier_len as usize)
}

/// Read a header off the front of `data`.
fn decode_header(data: &[u8], object_hash: Kind) -> (res: Option<(DecodedHeader, &[u8])>)
    ensures
        match res {
            Some((decoded, rest)) => header_parsed(data@, digest_len(object_hash)) matches Some((header, tail))
                && decoded.describes(header) && tail == rest@,
            None => header_parsed(data@, digest_len(object_hash)) is None,
        },
{
    let (identifier, data) = decode_identifier(data)?;
    // The on-disk layout is that of Git's `ondisk_untracked_cache` structure:
    //   info_exclude_stat  (36 bytes)
    //   excludes_file_stat (36 bytes)
    //   dir_flags          ( 4 bytes)
    //   info_exclude hash  (hash_len bytes)
    //   excludes_file hash (hash_len bytes)
    //   exclude_per_dir    (NUL-terminated)
    let hash_len: usize = object_hash.len_in_bytes();
    let (info_exclude_stat, data) = stat(data)?;
    let (excludes_file_stat, data) = stat(data)?;
    let (dir_flags, data) = read_u32(data)?;
    let (info_exclude_hash, data) = split_at_checked(data, hash_len)?;
    let (excludes_file_hash, data) = split_at_checked(data, hash_len)?;
    let (exclude_filename_per_dir, data) = split_at_byte_exclusive(data, 0)?;
    let (num_directory_blocks, data) = var_int(data)?;
    let header = DecodedHeader {
        identifier: owned(identifier),
        info_exclude: OidStat { stat: info_exclude_stat, id: ObjectId::from_bytes(info_exclude_hash) },
        excludes_file: OidStat { stat: excludes_file_stat, id: ObjectId::from_bytes(excludes_file_hash) },
        exclude_filename_per_dir: owned(exclude_filename_per_dir),
        dir_flags,
        num_directory_blocks,
    };
    Some((header, data))
}

/// Return `file` unless its id says that there is no such file.
fn if_present(file: OidStat) -> (res: Option<OidStat>)
    ensures
        oid_stat_view(res) == present_file(file.stat, file.id@),
{
    if file.id.is_null() {
        None
    } else {
        Some(file)
    }
}

impl DecodedHeader {
    /// Turn this header into a cache with `directories`.
    fn into_cache(self, directories: Vec<Directory>) -> (res: UntrackedCache)
        requires
            is_acyclic(directory_views(directories@)),
        ensures
            forall|header: Header| #[trigger]
                self.describes(header) ==> res@ == assembled(header, directory_views(directories@)),
    {
        UntrackedCache {
            identifier: self.identifier,
            info_exclude: if_present(self.info_exclude),
            excludes_file: if_present(self.excludes_file),
            exclude_filename_per_dir: self.exclude_filename_per_dir,
            dir_flags: self.dir_flags,
            directories,
        }
    }
}

/// Whether each of `positions` is the index of one of `len` directories, in ascending order.
spec fn are_indices(positions: Seq<usize>, len: nat) -> bool {
    &&& is_ascending(positions)
    &&& forall|i: int| 0 <= i < positions.len() ==> #[trigger] positions[i] < len
}

/// The `directory` at `index`, marked as check-only if that is one of `marked`.
spec fn with_check_only(directory: DirectoryView, index: int, marked: Seq<usize>) -> DirectoryView {
    DirectoryView { check_only: directory.check_only || marked.contains(index as usize), ..directory }
}

/// The `directory` at `index`, with its stat information in `data` if it is one of `owners`.
spec fn with_stat(directory: DirectoryView, index: int, owners: Seq<usize>, data: Seq<u8>) -> DirectoryView {
    match value_of(data, owners, STAT_LEN as int, index) {
        Some(bytes) => DirectoryView { stat: Some(stat_value(bytes)), ..directory },
        None => directory,
    }
}

/// The `directory` at `index`, with its digest of `len` bytes in `data` if it is one of `owners`.
spec fn with_oid(
    directory: DirectoryView,
    index: int,
    owners: Seq<usize>,
    data: Seq<u8>,
    len: int,
) -> DirectoryView {
    match value_of(data, owners, len, index) {
        Some(bytes) => DirectoryView { exclude_file_oid: Some(bytes), ..directory },
        None => directory,
    }
}

/// Mark the directories at `indices` as check-only.
fn mark_check_only(directories: &mut Vec<Directory>, indices: &Vec<usize>)
    requires
        are_indices(indices@, old(directories)@.len()),
    ensures
        final(directories)@.len() == old(directories)@.len(),
        forall|i: int|
            0 <= i < final(directories)@.len() ==> (#[trigger] final(directories)@[i])@ == with_check_only(
                old(directories)@[i]@,
                i,
                indices@,
            ),
{
    let mut position: usize = 0;
    let ghost before = directories@;
    assert(before.len() == directories.len());
    while position < indices.len()
        invariant
            position <= indices.len(),
            are_indices(indices@, before.len()),
            directories@.len() == before.len(),
            before.len() <= usize::MAX,
            forall|i: int|
                0 <= i < directories@.len() ==> (#[trigger] directories@[i])@ == with_check_only(
                    before[i]@,
                    i,
                    indices@.take(position as int),
                ),
        decreases indices.len() - position,
    {
        let index: usize = indices[position];
        let ghost previous = directories@;
        directories[index].check_only = true;
        proof {
            let next = indices@.take(position + 1);
            assert(next =~= indices@.take(position as int).push(index));
            assert forall|i: int| 0 <= i < directories@.len() implies (#[trigger] directories@[i])@ == with_check_only(
                before[i]@,
                i,
                next,
            ) by {
                let marked = indices@.take(position as int);
                if i == index {
                    assert(next[position as int] == index);
                } else {
                    assert(directories@[i] == previous[i]);
                    if next.contains(i as usize) {
                        let k = choose|k: int| 0 <= k < next.len() && next[k] == i as usize;
                        assert(marked[k] == i as usize);
                    }
                    if marked.contains(i as usize) {
                        let k = choose|k: int| 0 <= k < marked.len() && marked[k] == i as usize;
                        assert(next[k] == i as usize);
                    }
                }
            }
        }
        position = position + 1;
    }
    assert(indices@.take(indices@.len() as int) =~= indices@);
}

/// Read stat information for each of the directories at `indices` off the front of `data`.
fn decode_stats<'a>(directories: &mut Vec<Directory>, indices: &Vec<usize>, data: &'a [u8]) -> (res: Option<&'a [u8]>)
    requires
        are_indices(indices@, old(directories)@.len()),
    ensures
        match res {
            Some(rest) => {
                &&& split_bytes(data@, STAT_LEN * indices@.len()) matches Some((_, tail)) && tail == rest@
                &&& final(directories)@.len() == old(directories)@.len()
                &&& forall|i: int|
                    0 <= i < final(directories)@.len() ==> (#[trigger] final(directories)@[i])@ == with_stat(
                        old(directories)@[i]@,
                        i,
                        indices@,
                        data@,
                    )
            },
            None => data@.len() < STAT_LEN * indices@.len(),
        },
{
    let mut position: usize = 0;
    let mut rest: &'a [u8] = data;
    let ghost before = directories@;
    assert(before.len() == directories.len());
    assert(data@.subrange(0, data@.len() as int) =~= data@);
    while position < indices.len()
        invariant
            position <= indices.len(),
            are_indices(indices@, before.len()),
            directories@.len() == before.len(),
            before.len() <= usize::MAX,
            STAT_LEN * position <= data@.len(),
            rest@ == data@.subrange(STAT_LEN * position, data@.len() as int),
            forall|i: int|
                0 <= i < directories@.len() ==> (#[trigger] directories@[i])@ == with_stat(
                    before[i]@,
                    i,
                    indices@.take(position as int),
                    data@,
                ),
        decreases indices.len() - position,
    {
        let index: usize = indices[position];
        let ghost previous = directories@;
        let (value, tail) = stat(rest)?;
        directories[index].stat = Some(value);
        proof {
            let start = STAT_LEN * position;
            assert(rest@.subrange(0, STAT_LEN as int) =~= data@.subrange(start, start + STAT_LEN));
            assert(tail@ =~= data@.subrange(start + STAT_LEN, data@.len() as int));
            assert forall|i: int| 0 <= i < directories@.len() implies (#[trigger] directories@[i])@ == with_stat(
                before[i]@,
                i,
                indices@.take(position + 1),
                data@,
            ) by {
                lemma_value_of_next(data@, indices@, STAT_LEN as int, position as int, i);
                if i != index {
                    assert(directories@[i] == previous[i]);
                }
            }
        }
        rest = tail;
        position = position + 1;
    }
    assert(indices@.take(indices@.len() as int) =~= indices@);
    Some(rest)
}

/// Read an object id for each of the directories at `indices` off the front of `data`.
fn decode_oids<'a>(
    directories: &mut Vec<Directory>,
    indices: &Vec<usize>,
    data: &'a [u8],
    object_hash: Kind,
) -> (res: Option<&'a [u8]>)
    requires
        are_indices(indices@, old(directories)@.len()),
    ensures
        match res {
            Some(rest) => {
                &&& split_bytes(data@, digest_len(object_hash) * indices@.len()) matches Some((_, tail)) && tail
                    == rest@
                &&& final(directories)@.len() == old(directories)@.len()
                &&& forall|i: int|
                    0 <= i < final(directories)@.len() ==> (#[trigger] final(directories)@[i])@ == with_oid(
                        old(directories)@[i]@,
                        i,
                        indices@,
                        data@,
                        digest_len(object_hash),
                    )
            },
            None => data@.len() < digest_len(object_hash) * indices@.len(),
        },
{
    let hash_len: usize = object_hash.len_in_bytes();
    let mut position: usize = 0;
    let mut rest: &'a [u8] = data;
    let ghost before = directories@;
    assert(before.len() == directories.len());
    assert(data@.subrange(0, data@.len() as int) =~= data@);
    while position < indices.len()
        invariant
            position <= indices.len(),
            are_indices(indices@, before.len()),
            directories@.len() == before.len(),
            before.len() <= usize::MAX,
            hash_len == digest_len(object_hash),
            hash_len * position <= data@.len(),
            rest@ == data@.subrange(hash_len * position, data@.len() as int),
            forall|i: int|
                0 <= i < directories@.len() ==> (#[trigger] directories@[i])@ == with_oid(
                    before[i]@,
                    i,
                    indices@.take(position as int),
                    data@,
                    hash_len as int,
                ),
        decreases indices.len() - position,
    {
        let index: usize = indices[position];
        let ghost previous = directories@;
        proof {
            assert(hash_len * position + hash_len == hash_len * (position + 1)) by (nonlinear_arith);
            assert(hash_len * (position + 1) <= hash_len * indices@.len()) by (nonlinear_arith)
                requires
                    position + 1 <= indices@.len(),
            ;
        }
        let (hash, tail) = split_at_checked(rest, hash_len)?;
        let id: ObjectId = ObjectId::from_bytes(hash);
        directories[index].exclude_file_oid = Some(id);
        proof {
            let start = hash_len * position;
            assert(rest@.subrange(0, hash_len as int) =~= data@.subrange(start, start + hash_len));
            assert(tail@ =~= data@.subrange(start + hash_len, data@.len() as int));
            assert forall|i: int| 0 <= i < directories@.len() implies (#[trigger] directories@[i])@ == with_oid(
                before[i]@,
                i,
                indices@.take(position + 1),
                data@,
                hash_len as int,
            ) by {
                lemma_value_of_next(data@, indices@, hash_len as int, position as int, i);
                if i != index {
                    assert(directories@[i] == previous[i]);
                }
            }
        }
        rest = tail;
        position = position + 1;
    }
    assert(indices@.take(indices@.len() as int) =~= indices@);
    Some(rest)
}

/// Read the attributes of `directories`, which are what `data` consists of except for a final NUL byte.
#[verifier::rlimit(40)]
fn decode_attributes(directories: &mut Vec<Directory>, data: &[u8], object_hash: Kind) -> (res: bool)
    requires
        forall|i: int| 0 <= i < old(directories)@.len() ==> is_plain((#[trigger] old(directories)@[i])@),
    ensures
        match attributes_parsed(directory_views(old(directories)@), data@, digest_len(object_hash)) {
            Some(expected) => res && directory_views(final(directories)@) == expected,
            None => !res,
        },
{
    let ghost hash_len = digest_len(object_hash);
    let ghost before = directory_views(directories@);
    let ghost start = data@;
    let num_directories: usize = directories.len();
    let (valid, data) = match bitmap_from_bytes(data) {
        Some(parsed) => parsed,
        None => return false,
    };
    let (check_only, data) = match bitmap_from_bytes(data) {
        Some(parsed) => parsed,
        None => return false,
    };
    let (hash_valid, data) = match bitmap_from_bytes(data) {
        Some(parsed) => parsed,
        None => return false,
    };
    let ghost bitmaps = Bitmaps {
        valid: bitmap_view(valid),
        check_only: bitmap_view(check_only),
        hash_valid: bitmap_view(hash_valid),
    };
    let ghost rest = data@;
    assert(bitmaps_parsed(start) == Some((bitmaps, rest)));
    if bitmap_num_bits(&valid) > num_directories || bitmap_num_bits(&check_only) > num_directories || bitmap_num_bits(
        &hash_valid,
    ) > num_directories {
        return false;
    }
    let (check_only_indices, check_only_is_well_formed) = bitmap_set_bits(&check_only);
    let (valid_indices, valid_is_well_formed) = bitmap_set_bits(&valid);
    let (hash_valid_indices, hash_valid_is_well_formed) = bitmap_set_bits(&hash_valid);
    if !check_only_is_well_formed || !valid_is_well_formed || !hash_valid_is_well_formed {
        return false;
    }
    assert(bitmaps_fit(bitmaps, num_directories as nat));
    let ghost stats_len = STAT_LEN * valid_indices@.len();
    let ghost oids_len = hash_len * hash_valid_indices@.len();
    assert(0 <= oids_len) by (nonlinear_arith)
        requires
            oids_len == hash_len * hash_valid_indices@.len(),
            hash_len >= 0,
    ;
    let ghost plain = directories@;
    mark_check_only(directories, &check_only_indices);
    let ghost marked = directories@;
    let data = match decode_stats(directories, &valid_indices, data) {
        Some(data) => data,
        None => return false,
    };
    let ghost with_stats = directories@;
    assert(data@ == rest.subrange(stats_len, rest.len() as int));
    let data = match decode_oids(directories, &hash_valid_indices, data, object_hash) {
        Some(data) => data,
        None => return false,
    };
    // null-byte checked in the beginning
    if data.len() != 1 {
        return false;
    }
    proof {
        let expected = attributes_parsed(before, start, hash_len)->0;
        assert forall|i: int| 0 <= i < num_directories implies directory_views(directories@)[i] == expected[i] by {
            assert(directories@[i]@ == with_oid(
                with_stats[i]@,
                i,
                hash_valid_indices@,
                rest.subrange(stats_len, rest.len() as int),
                hash_len,
            ));
            assert(with_stats[i]@ == with_stat(marked[i]@, i, valid_indices@, rest));
            assert(marked[i]@ == with_check_only(plain[i]@, i, check_only_indices@));
            assert(is_plain(plain[i]@));
            assert(before[i] == plain[i]@);
        }
        assert(directory_views(directories@) =~= expected);
    }
    true
}

/// Decode an untracked cache extension from `data`, assuming object hashes are of type `object_hash`.
///
/// In contrast to [`decode()`], this tells why there is no cache, and leaves the choice of how memory is obtained.
#[verifier::rlimit(40)]
pub fn try_decode(
    data: &[u8],
    object_hash: Kind,
    alloc_limit_bytes: Option<usize>,
    allocation: Allocation,
) -> (res: Result<UntrackedCache, DecodeError>)
    ensures
        match res {
            Ok(cache) => cache_parsed(data@, object_hash, alloc_limit_bytes) == Some(cache@) && is_tree(
                cache@.directories,
            ),
            Err(DecodeError::Malformed) => cache_parsed(data@, object_hash, alloc_limit_bytes) is None,
            Err(DecodeError::OutOfMemory) => allocation == Allocation::Upfront && cache_is_refused(
                data@,
                object_hash,
                alloc_limit_bytes,
            ),
        },
        res is Ok && allocation == Allocation::Upfront ==> cache_is_granted(data@, object_hash, alloc_limit_bytes),
{
    if data.len() == 0 || data[data.len() - 1] != 0 {
        return Err(DecodeError::Malformed);
    }
    let ghost start = data@;
    let (header, data) = match decode_header(data, object_hash) {
        Some(parsed) => parsed,
        None => return Err(DecodeError::Malformed),
    };
    let ghost (spec_header, spec_rest) = checked_header_parsed(start, object_hash)->0;
    assert(header.describes(spec_header));
    let mut directories: Vec<Directory> = Vec::new();
    if header.num_directory_blocks == 0 {
        return if data.len() == 0 {
            assert(directory_views(directories@) =~= Seq::empty());
            Ok(header.into_cache(directories))
        } else {
            Err(DecodeError::Malformed)
        };
    }
    if header.num_directory_blocks > data.len() as u64 {
        return Err(DecodeError::Malformed);
    }
    let num_directory_blocks: usize = header.num_directory_blocks as usize;
    if is_over_limit(num_directory_blocks, core::mem::size_of::<Directory>(), alloc_limit_bytes) {
        return Err(DecodeError::Malformed);
    }
    if !reserve(&mut directories, num_directory_blocks, allocation) {
        return Err(DecodeError::OutOfMemory);
    }
    assert(directory_views(directories@) =~= Seq::empty());
    let data = match decode_directory_block(data, &mut directories, alloc_limit_bytes, allocation) {
        Ok(data) => data,
        Err(err) => return Err(err),
    };
    let ghost parsed = directory_views(directories@);
    assert(Seq::<DirectoryView>::empty() + parsed =~= parsed);
    assert(directory_parsed(spec_rest, 0, alloc_limit_bytes) == Some((parsed, data@))) by {
        let (added, _) = directory_parsed(spec_rest, 0, alloc_limit_bytes)->0;
        assert(Seq::<DirectoryView>::empty() + added =~= added);
    }
    if directories.len() != num_directory_blocks {
        return Err(DecodeError::Malformed);
    }
    proof {
        lemma_directory_is_plain(spec_rest, 0, alloc_limit_bytes);
        assert forall|i: int| 0 <= i < directories@.len() implies is_plain((#[trigger] directories@[i])@) by {
            assert(parsed[i] == directories@[i]@);
        }
    }
    if !decode_attributes(&mut directories, data, object_hash) {
        return Err(DecodeError::Malformed);
    }
    proof {
        let attributed = directory_views(directories@);
        assert(attributed.len() == directories.len());
        assert forall|i: int| 0 <= i < parsed.len() implies (#[trigger] parsed[i]).sub_directories == attributed[0
            + i].sub_directories by {}
        lemma_parsed_tree(spec_rest, alloc_limit_bytes, attributed);
        law_tree_is_acyclic(attributed);
    }
    Ok(header.into_cache(directories))
}

/// Decode an untracked cache extension from `data`, assuming object hashes are of type `object_hash`.
///
/// No list in the cache may take more than `alloc_limit_bytes` of memory. `None` is returned if it would, if the data
/// is malformed, or if the allocator refuses to provide the memory needed for directories. It isn't asked for any if
/// there are none.
pub fn decode(data: &[u8], object_hash: Kind, alloc_limit_bytes: Option<usize>) -> (res: Option<UntrackedCache>)
    ensures
        res matches Some(cache) ==> cache_parsed(data@, object_hash, alloc_limit_bytes) == Some(cache@) && is_tree(
            cache@.directories,
        ),
        cache_parsed(data@, object_hash, alloc_limit_bytes) matches Some(cache) && cache.directories.len() == 0
            ==> res is Some,
        res is Some ==> cache_is_granted(data@, object_hash, alloc_limit_bytes),
        res is None ==> cache_parsed(data@, object_hash, alloc_limit_bytes) is None || cache_is_refused(
            data@,
            object_hash,
            alloc_limit_bytes,
        ),
{
    match try_decode(data, object_hash, alloc_limit_bytes, Allocation::Upfront) {
        Ok(cache) => Some(cache),
        Err(_) => {
            proof {
                lemma_directories_are_announced(data@, object_hash, alloc_limit_bytes);
            }
            None
        },
    }
}

} // verus!
