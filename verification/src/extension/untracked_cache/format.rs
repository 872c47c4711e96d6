//! The on-disk format of an untracked cache.
//!
//! After a header, it holds one block per directory, each followed by the blocks of its sub-directories. Three bitmaps
//! then tell which directories have stat information, are check-only, and have the id of an exclude file. That
//! information follows in the order of the directories, and a final NUL byte.

use vstd::prelude::*;

use crate::bitmap::bitmap_parsed;
use crate::bitmap::is_ascending;
use crate::bitmap::Bitmap;
use crate::decode::stat_parsed;
use crate::entry::stat_value;
use crate::entry::Stat;
use crate::entry::STAT_LEN;
use crate::extension::untracked_cache::Directory;
use crate::extension::untracked_cache::DirectoryView;
use crate::extension::untracked_cache::OidStatView;
use crate::extension::untracked_cache::UntrackedCacheView;
use crate::hash::digest_len;
use crate::hash::is_zero;
use crate::hash::Kind;
use crate::util::lemma_first_index;
use crate::util::lemma_var_int_parsed_shrinks;
use crate::util::split_at_byte;
use crate::util::split_bytes;
use crate::util::u32_parsed;
use crate::util::var_int_parsed;

verus! {

/// Whether memory for `count` values of `size` bytes each exceeds `limit`, if there is one.
pub open spec fn exceeds_limit(count: int, size: nat, limit: Option<usize>) -> bool {
    match limit {
        Some(limit) => if count * size <= usize::MAX {
            count * size > limit
        } else {
            usize::MAX > limit
        },
        None => false,
    }
}

/// The first `count` NUL-terminated strings of `data` and what follows them.
pub open spec fn strings_parsed(data: Seq<u8>, count: nat) -> Option<(Seq<Seq<u8>>, Seq<u8>)>
    decreases count,
{
    if count == 0 {
        Some((Seq::empty(), data))
    } else {
        match strings_parsed(data, (count - 1) as nat) {
            Some((strings, tail)) => match split_at_byte(tail, 0) {
                Some((string, rest)) => Some((strings.push(string), rest)),
                None => None,
            },
            None => None,
        }
    }
}

/// The part of a directory block that precedes the blocks of sub-directories.
pub struct BlockHead {
    /// The name of the directory.
    pub name: Seq<u8>,
    /// The names of untracked entries.
    pub untracked_entries: Seq<Seq<u8>>,
    /// The amount of blocks of sub-directories to follow.
    pub num_sub_directories: nat,
}

/// What a directory block says of itself in front of the names of untracked entries.
pub struct BlockCounts {
    /// The amount of untracked entries.
    pub num_untracked: u64,
    /// The amount of sub-directories.
    pub num_dirs: u64,
    /// The name of the directory.
    pub name: Seq<u8>,
}

/// The counts and the name that the directory block at the start of `data` has, if they are plausible and may be held
/// in memory, and what follows them.
///
/// Each name of an untracked entry is assumed to take up at least two bytes along with its terminator, and so is each
/// sub-directory.
pub open spec fn block_counts_parsed(data: Seq<u8>, limit: Option<usize>) -> Option<(BlockCounts, Seq<u8>)> {
    match var_int_parsed(data) {
        Some((num_untracked, data)) => match var_int_parsed(data) {
            Some((num_dirs, data)) => match split_at_byte(data, 0) {
                Some((name, data)) => if num_untracked > data.len() / 2 || num_dirs > data.len() / 2 {
                    None
                } else if exceeds_limit(num_untracked as int, vstd::layout::size_of::<Vec<u8>>(), limit)
                    || exceeds_limit(num_dirs as int, vstd::layout::size_of::<usize>(), limit) {
                    None
                } else {
                    Some((BlockCounts { num_untracked, num_dirs, name }, data))
                },
                None => None,
            },
            None => None,
        },
        None => None,
    }
}

/// The block head that `data` starts with and what follows it.
pub open spec fn block_head_parsed(data: Seq<u8>, limit: Option<usize>) -> Option<(BlockHead, Seq<u8>)> {
    match block_counts_parsed(data, limit) {
        Some((counts, data)) => match strings_parsed(data, counts.num_untracked as nat) {
            Some((untracked_entries, rest)) => Some(
                (
                    BlockHead {
                        name: counts.name,
                        untracked_entries,
                        num_sub_directories: counts.num_dirs as nat,
                    },
                    rest,
                ),
            ),
            None => None,
        },
        None => None,
    }
}

/// The directory that `head` describes, without the attributes that bitmaps add to it.
pub open spec fn plain_directory(head: BlockHead, sub_directories: Seq<usize>) -> DirectoryView {
    DirectoryView {
        name: head.name,
        untracked_entries: head.untracked_entries,
        sub_directories,
        stat: None,
        exclude_file_oid: None,
        check_only: false,
    }
}

/// The directory block that `data` starts with, as the directory itself and all below it, and what follows it.
///
/// `index` is the index of the directory.
pub open spec fn directory_parsed(data: Seq<u8>, index: nat, limit: Option<usize>) -> Option<
    (Seq<DirectoryView>, Seq<u8>),
>
    decreases data.len(), 0nat,
{
    match block_head_parsed(data, limit) {
        Some((head, tail)) => {
            proof {
                lemma_block_head_shrinks(data, limit);
            }
            match sub_directories_parsed(tail, index + 1, head.num_sub_directories, limit) {
                Some((indices, directories, rest)) => Some(
                    (seq![plain_directory(head, indices)] + directories, rest),
                ),
                None => None,
            }
        },
        None => None,
    }
}

/// The first `count` directory blocks of `data`, as the indices of the directories at the top, of which the first is
/// `index`, all directories, and what follows them.
pub open spec fn sub_directories_parsed(data: Seq<u8>, index: nat, count: nat, limit: Option<usize>) -> Option<
    (Seq<usize>, Seq<DirectoryView>, Seq<u8>),
>
    decreases data.len(), 1nat,
{
    if count == 0 {
        Some((Seq::empty(), Seq::empty(), data))
    } else {
        match directory_parsed(data, index, limit) {
            Some((first, tail)) => if tail.len() < data.len() {
                match sub_directories_parsed(tail, index + first.len(), (count - 1) as nat, limit) {
                    Some((indices, directories, rest)) => Some(
                        (seq![index as usize] + indices, first + directories, rest),
                    ),
                    None => None,
                }
            } else {
                None
            },
            None => None,
        }
    }
}

/// The part of an untracked cache that precedes the directories.
pub struct Header {
    /// Something identifying the location and machine that the cache is for.
    pub identifier: Seq<u8>,
    /// Stat information on the `.git/info/exclude` file.
    pub info_exclude_stat: Stat,
    /// Stat information on the `core.excludesfile`.
    pub excludes_file_stat: Stat,
    /// The directory flags.
    pub dir_flags: u32,
    /// The digest of the `.git/info/exclude` file.
    pub info_exclude_id: Seq<u8>,
    /// The digest of the `core.excludesfile`.
    pub excludes_file_id: Seq<u8>,
    /// Usually `.gitignore`.
    pub exclude_filename_per_dir: Seq<u8>,
    /// The amount of directories to follow.
    pub num_directories: u64,
}

/// The identifier that `data` starts with, preceded by its length, and what follows it.
pub open spec fn identifier_parsed(data: Seq<u8>) -> Option<(Seq<u8>, Seq<u8>)> {
    match var_int_parsed(data) {
        Some((len, data)) => split_bytes(data, len as int),
        None => None,
    }
}

/// The header that `data` starts with, where each digest takes up `hash_len` bytes, and what follows it.
pub open spec fn header_parsed(data: Seq<u8>, hash_len: int) -> Option<(Header, Seq<u8>)> {
    match identifier_parsed(data) {
        Some((identifier, data)) => match stat_parsed(data) {
            Some((info_exclude_stat, data)) => match stat_parsed(data) {
                Some((excludes_file_stat, data)) => match u32_parsed(data) {
                    Some((dir_flags, data)) => match split_bytes(data, hash_len) {
                        Some((info_exclude_id, data)) => match split_bytes(data, hash_len) {
                            Some((excludes_file_id, data)) => match split_at_byte(data, 0) {
                                Some((exclude_filename_per_dir, data)) => match var_int_parsed(data) {
                                    Some((num_directories, rest)) => Some(
                                        (
                                            Header {
                                                identifier,
                                                info_exclude_stat,
                                                excludes_file_stat,
                                                dir_flags,
                                                info_exclude_id,
                                                excludes_file_id,
                                                exclude_filename_per_dir,
                                                num_directories,
                                            },
                                            rest,
                                        ),
                                    ),
                                    None => None,
                                },
                                None => None,
                            },
                            None => None,
                        },
                        None => None,
                    },
                    None => None,
                },
                None => None,
            },
            None => None,
        },
        None => None,
    }
}

/// Stat information and id of a file, unless the id says that there is no such file.
pub open spec fn present_file(stat: Stat, id: Seq<u8>) -> Option<OidStatView> {
    if is_zero(id) {
        None
    } else {
        Some(OidStatView { stat, id })
    }
}

/// The cache with `header` and `directories`.
pub open spec fn assembled(header: Header, directories: Seq<DirectoryView>) -> UntrackedCacheView {
    UntrackedCacheView {
        identifier: header.identifier,
        info_exclude: present_file(header.info_exclude_stat, header.info_exclude_id),
        excludes_file: present_file(header.excludes_file_stat, header.excludes_file_id),
        exclude_filename_per_dir: header.exclude_filename_per_dir,
        dir_flags: header.dir_flags,
        directories,
    }
}

/// The three bitmaps that follow the directory blocks.
pub struct Bitmaps {
    /// Which directories have stat information.
    pub valid: Bitmap,
    /// Which directories are check-only.
    pub check_only: Bitmap,
    /// Which directories have the id of an exclude file.
    pub hash_valid: Bitmap,
}

/// The three bitmaps that `data` starts with and what follows them.
pub open spec fn bitmaps_parsed(data: Seq<u8>) -> Option<(Bitmaps, Seq<u8>)> {
    match bitmap_parsed(data) {
        Some((valid, data)) => match bitmap_parsed(data) {
            Some((check_only, data)) => match bitmap_parsed(data) {
                Some((hash_valid, rest)) => Some((Bitmaps { valid, check_only, hash_valid }, rest)),
                None => None,
            },
            None => None,
        },
        None => None,
    }
}

/// Whether `bitmaps` speak of no more than `num_directories` directories and are well-formed.
pub open spec fn bitmaps_fit(bitmaps: Bitmaps, num_directories: nat) -> bool {
    &&& bitmaps.valid.num_bits <= num_directories
    &&& bitmaps.check_only.num_bits <= num_directories
    &&& bitmaps.hash_valid.num_bits <= num_directories
    &&& bitmaps.valid.is_well_formed()
    &&& bitmaps.check_only.is_well_formed()
    &&& bitmaps.hash_valid.is_well_formed()
}

/// The amount of bytes that attributes take up, including the NUL byte after them.
pub open spec fn attributes_len(bitmaps: Bitmaps, hash_len: int) -> int {
    STAT_LEN * bitmaps.valid.set_bits().len() + hash_len * bitmaps.hash_valid.set_bits().len() + 1
}

/// The value of `len` bytes in `data` that belongs to the directory at `index`, where there is one such value for each
/// of `owners`.
pub open spec fn value_of(data: Seq<u8>, owners: Seq<usize>, len: int, index: int) -> Option<Seq<u8>> {
    if owners.contains(index as usize) {
        let position = owners.index_of(index as usize);
        Some(data.subrange(len * position, len * position + len))
    } else {
        None
    }
}

/// The directory at `index` along with the attributes that `bitmaps` say it has, taken from `data`.
pub open spec fn attributed(
    directory: DirectoryView,
    index: int,
    bitmaps: Bitmaps,
    data: Seq<u8>,
    hash_len: int,
) -> DirectoryView {
    let stats_len = STAT_LEN * bitmaps.valid.set_bits().len();
    DirectoryView {
        stat: match value_of(data, bitmaps.valid.set_bits(), STAT_LEN as int, index) {
            Some(bytes) => Some(stat_value(bytes)),
            None => None,
        },
        exclude_file_oid: value_of(
            data.subrange(stats_len, data.len() as int),
            bitmaps.hash_valid.set_bits(),
            hash_len,
            index,
        ),
        check_only: bitmaps.check_only.set_bits().contains(index as usize),
        ..directory
    }
}

/// The `directories` along with their attributes, which are what `data` consists of.
pub open spec fn attributes_parsed(directories: Seq<DirectoryView>, data: Seq<u8>, hash_len: int) -> Option<
    Seq<DirectoryView>,
> {
    match bitmaps_parsed(data) {
        Some((bitmaps, rest)) => if bitmaps_fit(bitmaps, directories.len()) && rest.len() == attributes_len(
            bitmaps,
            hash_len,
        ) {
            Some(
                Seq::new(
                    directories.len(),
                    |i: int| attributed(directories[i], i, bitmaps, rest, hash_len),
                ),
            )
        } else {
            None
        },
        None => None,
    }
}

/// Whether `num_directories` directories can follow in `data`, and may be held in memory.
pub open spec fn may_hold_directories(num_directories: u64, data: Seq<u8>, limit: Option<usize>) -> bool {
    &&& num_directories <= usize::MAX
    &&& num_directories <= data.len()
    &&& !exceeds_limit(num_directories as int, vstd::layout::size_of::<Directory>(), limit)
}

/// The header of the cache that `data` consists of, and what follows it.
///
/// There is always a NUL byte at the end.
pub open spec fn checked_header_parsed(data: Seq<u8>, kind: Kind) -> Option<(Header, Seq<u8>)> {
    if data.len() == 0 || data.last() != 0 {
        None
    } else {
        header_parsed(data, digest_len(kind))
    }
}

/// The cache that `data` consists of, with object ids of `kind`, if none of its lists takes more than `limit` bytes of
/// memory.
pub open spec fn cache_parsed(data: Seq<u8>, kind: Kind, limit: Option<usize>) -> Option<UntrackedCacheView> {
    match checked_header_parsed(data, kind) {
        Some((header, data)) => if header.num_directories == 0 {
            if data.len() == 0 {
                Some(assembled(header, Seq::empty()))
            } else {
                None
            }
        } else if !may_hold_directories(header.num_directories, data, limit) {
            None
        } else {
            match directory_parsed(data, 0, limit) {
                Some((directories, data)) => if directories.len() == header.num_directories {
                    match attributes_parsed(directories, data, digest_len(kind)) {
                        Some(directories) => Some(assembled(header, directories)),
                        None => None,
                    }
                } else {
                    None
                },
                None => None,
            }
        },
        None => None,
    }
}

/// Reading strings does not make the data longer, and a failure to read some of them is one to read more of them.
pub proof fn lemma_strings_parsed(data: Seq<u8>, count: nat, more: nat)
    requires
        count <= more,
    ensures
        strings_parsed(data, count) matches Some((strings, rest)) ==> strings.len() == count && rest.len()
            <= data.len(),
        strings_parsed(data, count) is None ==> strings_parsed(data, more) is None,
    decreases more,
{
    if count < more {
        lemma_strings_parsed(data, count, (more - 1) as nat);
    } else if count > 0 {
        lemma_strings_parsed(data, (count - 1) as nat, (count - 1) as nat);
        if let Some((_, tail)) = strings_parsed(data, (count - 1) as nat) {
            lemma_first_index(tail, 0);
        }
    }
}

/// Reading a block head consumes bytes.
pub proof fn lemma_block_head_shrinks(data: Seq<u8>, limit: Option<usize>)
    ensures
        block_head_parsed(data, limit) matches Some((_, rest)) ==> rest.len() < data.len(),
{
    if let Some((num_untracked, first)) = var_int_parsed(data) {
        lemma_var_int_parsed_shrinks(data);
        if let Some((_, second)) = var_int_parsed(first) {
            lemma_var_int_parsed_shrinks(first);
            if let Some((_, third)) = split_at_byte(second, 0) {
                lemma_first_index(second, 0);
                lemma_strings_parsed(third, num_untracked as nat, num_untracked as nat);
            }
        }
    }
}

/// Reading a directory block consumes bytes and yields at least one directory.
pub proof fn lemma_directory_shrinks(data: Seq<u8>, index: nat, limit: Option<usize>)
    ensures
        directory_parsed(data, index, limit) matches Some((directories, rest)) ==> rest.len() < data.len()
            && directories.len() > 0,
    decreases data.len(), 0nat,
{
    if let Some((head, tail)) = block_head_parsed(data, limit) {
        lemma_block_head_shrinks(data, limit);
        lemma_sub_directories_shrink(tail, index + 1, head.num_sub_directories, limit);
    }
}

/// Reading directory blocks does not make the data longer.
pub proof fn lemma_sub_directories_shrink(data: Seq<u8>, index: nat, count: nat, limit: Option<usize>)
    ensures
        sub_directories_parsed(data, index, count, limit) matches Some((indices, _, rest)) ==> rest.len() <= data.len()
            && indices.len() == count,
    decreases data.len(), 1nat,
{
    if count > 0 {
        lemma_directory_shrinks(data, index, limit);
        if let Some((first, tail)) = directory_parsed(data, index, limit) {
            lemma_sub_directories_shrink(tail, index + first.len(), (count - 1) as nat, limit);
        }
    }
}

/// A cache has as many directories as its header announces.
pub proof fn lemma_directories_are_announced(data: Seq<u8>, kind: Kind, limit: Option<usize>)
    ensures
        cache_parsed(data, kind, limit) matches Some(cache) ==> {
            &&& checked_header_parsed(data, kind) matches Some((header, _))
            &&& cache.directories.len() == header.num_directories
        },
{
}

/// Whether `directory` has none of the attributes that bitmaps add.
pub open spec fn is_plain(directory: DirectoryView) -> bool {
    directory.stat is None && directory.exclude_file_oid is None && !directory.check_only
}

/// The directories of a block do not have attributes yet.
pub proof fn lemma_directory_is_plain(data: Seq<u8>, index: nat, limit: Option<usize>)
    ensures
        directory_parsed(data, index, limit) matches Some((directories, _)) ==> forall|i: int|
            0 <= i < directories.len() ==> is_plain(#[trigger] directories[i]),
    decreases data.len(), 0nat,
{
    if let Some((head, tail)) = block_head_parsed(data, limit) {
        lemma_block_head_shrinks(data, limit);
        lemma_sub_directories_are_plain(tail, index + 1, head.num_sub_directories, limit);
    }
}

/// The directories of several blocks do not have attributes yet.
proof fn lemma_sub_directories_are_plain(data: Seq<u8>, index: nat, count: nat, limit: Option<usize>)
    ensures
        sub_directories_parsed(data, index, count, limit) matches Some((_, directories, _)) ==> forall|i: int|
            0 <= i < directories.len() ==> is_plain(#[trigger] directories[i]),
    decreases data.len(), 1nat,
{
    if count > 0 {
        lemma_directory_is_plain(data, index, limit);
        lemma_directory_shrinks(data, index, limit);
        if let Some((first, tail)) = directory_parsed(data, index, limit) {
            lemma_sub_directories_are_plain(tail, index + first.len(), (count - 1) as nat, limit);
        }
    }
}

/// The value of an owner is at the position that the owner has among all owners.
pub proof fn lemma_value_at(data: Seq<u8>, owners: Seq<usize>, len: int, position: int)
    requires
        is_ascending(owners),
        0 <= position < owners.len(),
    ensures
        value_of(data, owners, len, owners[position] as int) == Some(
            data.subrange(len * position, len * position + len),
        ),
{
    let found = owners.index_of(owners[position]);
    assert(owners.contains(owners[position]));
    assert(owners[found] == owners[position]);
    assert(found == position);
}

/// Another owner adds its own value and leaves those of others alone.
pub proof fn lemma_value_of_next(data: Seq<u8>, owners: Seq<usize>, len: int, position: int, index: int)
    requires
        is_ascending(owners),
        0 <= position < owners.len(),
        0 <= index <= usize::MAX,
    ensures
        value_of(data, owners.take(position + 1), len, index) == if owners[position] == index {
            Some(data.subrange(len * position, len * position + len))
        } else {
            value_of(data, owners.take(position), len, index)
        },
{
    let before = owners.take(position);
    let after = owners.take(position + 1);
    if owners[position] == index {
        lemma_value_at(data, after, len, position);
    } else if after.contains(index as usize) {
        let found = after.index_of(index as usize);
        assert(before[found] == index);
        lemma_value_at(data, after, len, found);
        lemma_value_at(data, before, len, found);
    } else if before.contains(index as usize) {
        let found = before.index_of(index as usize);
        assert(after[found] == index);
    }
}

} // verus!
