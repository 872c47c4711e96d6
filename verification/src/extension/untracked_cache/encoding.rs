//! The bytes that an untracked cache is written to.

use vstd::prelude::*;

use crate::bitmap::literal_bitmap;
use crate::bitmap::true_positions;
use crate::entry::stat_bytes;
use crate::entry::zero_stat;
use crate::entry::Stat;
use crate::extension::untracked_cache::structure::is_acyclic;
use crate::extension::untracked_cache::structure::is_tree;
use crate::extension::untracked_cache::structure::lemma_siblings_count;
use crate::extension::untracked_cache::structure::lemma_subtree_of_subtree;
use crate::extension::untracked_cache::structure::nests_within;
use crate::extension::untracked_cache::structure::siblings_end;
use crate::extension::untracked_cache::structure::subtree_end;
use crate::extension::untracked_cache::DirectoryView;
use crate::extension::untracked_cache::OidStatView;
use crate::extension::untracked_cache::UntrackedCacheView;
use crate::hash::null_digest;
use crate::hash::Kind;
use crate::util::u32_be_bytes;
use crate::util::var_int_bytes;

verus! {

/// The bytes of `strings`, each terminated by a NUL byte.
pub open spec fn strings_bytes(strings: Seq<Seq<u8>>) -> Seq<u8>
    decreases strings.len(),
{
    if strings.len() == 0 {
        Seq::empty()
    } else {
        strings_bytes(strings.drop_last()) + strings.last().push(0)
    }
}

/// The bytes of `directory` in front of those of its sub-directories.
pub open spec fn block_head_bytes(directory: DirectoryView) -> Seq<u8> {
    var_int_bytes(directory.untracked_entries.len()) + var_int_bytes(directory.sub_directories.len())
        + directory.name.push(0) + strings_bytes(directory.untracked_entries)
}

/// The bytes of `directories` in the order in which they are listed.
pub open spec fn blocks_bytes(directories: Seq<DirectoryView>) -> Seq<u8>
    decreases directories.len(),
{
    if directories.len() == 0 {
        Seq::empty()
    } else {
        blocks_bytes(directories.drop_last()) + block_head_bytes(directories.last())
    }
}

/// What is written of the directory at `index`, and whether that is complete: the bytes of the directory itself, and of
/// each of its sub-directories in the order in which they are listed, up to the first that does not exist.
///
/// Directories that are nested more than `depth` times count as not existing.
pub open spec fn directory_written(directories: Seq<DirectoryView>, index: int, depth: nat) -> (Seq<u8>, bool)
    decreases depth, 0nat,
{
    if 0 <= index < directories.len() && depth > 0 {
        let directory = directories[index];
        let (below, complete) = children_written(directories, directory.sub_directories, (depth - 1) as nat);
        (block_head_bytes(directory) + below, complete)
    } else {
        (Seq::empty(), false)
    }
}

/// What is written of the directories that `children` refer to, one after another, and whether that is complete.
pub open spec fn children_written(directories: Seq<DirectoryView>, children: Seq<usize>, depth: nat) -> (Seq<u8>, bool)
    decreases depth, children.len() + 1,
{
    if children.len() == 0 {
        (Seq::empty(), true)
    } else {
        let (first, complete) = directory_written(directories, children[0] as int, depth);
        if complete {
            let (others, all_complete) = children_written(directories, children.drop_first(), depth);
            (first + others, all_complete)
        } else {
            (first, false)
        }
    }
}

/// What is written of the directory at `index` and all below it, and whether that is complete, if no directory is
/// nested within itself.
pub open spec fn subtree_written(directories: Seq<DirectoryView>, index: int) -> (Seq<u8>, bool) {
    directory_written(directories, index, directories.len())
}

/// Whether each directory that is reached from the first one exists, if there is a first one at all.
pub open spec fn is_complete(directories: Seq<DirectoryView>) -> bool {
    directories.len() > 0 ==> subtree_written(directories, 0).1
}

/// The bytes of `stat`, which are zero if there is none.
pub open spec fn optional_stat_bytes(stat: Option<Stat>) -> Seq<u8> {
    match stat {
        Some(stat) => stat_bytes(stat),
        None => stat_bytes(zero_stat()),
    }
}

/// The stat information of `file`.
pub open spec fn file_stat(file: Option<OidStatView>) -> Option<Stat> {
    match file {
        Some(file) => Some(file.stat),
        None => None,
    }
}

/// The bytes of the id `id`, or zero bytes for an id of `kind` if there is none.
pub open spec fn optional_id_bytes(id: Option<Seq<u8>>, kind: Kind) -> Seq<u8> {
    match id {
        Some(id) => id,
        None => null_digest(kind),
    }
}

/// The id of `file`.
pub open spec fn file_id(file: Option<OidStatView>) -> Option<Seq<u8>> {
    match file {
        Some(file) => Some(file.id),
        None => None,
    }
}

/// The bytes of all that precedes the directories.
pub open spec fn header_bytes(cache: UntrackedCacheView, kind: Kind) -> Seq<u8> {
    var_int_bytes(cache.identifier.len()) + cache.identifier + optional_stat_bytes(file_stat(cache.info_exclude))
        + optional_stat_bytes(file_stat(cache.excludes_file)) + u32_be_bytes(cache.dir_flags) + optional_id_bytes(
        file_id(cache.info_exclude),
        kind,
    ) + optional_id_bytes(file_id(cache.excludes_file), kind) + cache.exclude_filename_per_dir.push(0) + var_int_bytes(
        cache.directories.len(),
    )
}

/// Which of `directories` have stat information.
pub open spec fn valid_bits(directories: Seq<DirectoryView>) -> Seq<bool> {
    directories.map_values(|directory: DirectoryView| directory.stat is Some)
}

/// Which of `directories` are check-only.
pub open spec fn check_only_bits(directories: Seq<DirectoryView>) -> Seq<bool> {
    directories.map_values(|directory: DirectoryView| directory.check_only)
}

/// Which of `directories` have the id of an exclude file.
pub open spec fn hash_valid_bits(directories: Seq<DirectoryView>) -> Seq<bool> {
    directories.map_values(|directory: DirectoryView| directory.exclude_file_oid is Some)
}

/// The bytes of those of `values` that are present.
pub open spec fn present_bytes(values: Seq<Option<Seq<u8>>>) -> Seq<u8>
    decreases values.len(),
{
    if values.len() == 0 {
        Seq::empty()
    } else {
        match values.last() {
            Some(bytes) => present_bytes(values.drop_last()) + bytes,
            None => present_bytes(values.drop_last()),
        }
    }
}

/// The bytes of the stat information of each of `directories`.
pub open spec fn stat_values(directories: Seq<DirectoryView>) -> Seq<Option<Seq<u8>>> {
    directories.map_values(
        |directory: DirectoryView|
            match directory.stat {
                Some(stat) => Some(stat_bytes(stat)),
                None => None,
            },
    )
}

/// The bytes of the id of the exclude file of each of `directories`.
pub open spec fn oid_values(directories: Seq<DirectoryView>) -> Seq<Option<Seq<u8>>> {
    directories.map_values(|directory: DirectoryView| directory.exclude_file_oid)
}

/// The bytes of the three bitmaps that tell which attributes `directories` have.
pub open spec fn bitmaps_bytes(directories: Seq<DirectoryView>) -> Seq<u8> {
    literal_bitmap(valid_bits(directories)).encoded() + literal_bitmap(check_only_bits(directories)).encoded()
        + literal_bitmap(hash_valid_bits(directories)).encoded()
}

/// Whether walking over the bitmap that holds `bits` visits the positions at which they are true, and nothing else.
pub open spec fn walk_is_known(bits: Seq<bool>) -> bool {
    let bitmap = literal_bitmap(bits);
    bitmap.is_well_formed() && bitmap.set_bits() == true_positions(bits)
}

/// Whether walking over the three bitmaps of `directories` visits those that have the respective attribute.
pub open spec fn walks_are_known(directories: Seq<DirectoryView>) -> bool {
    &&& walk_is_known(valid_bits(directories))
    &&& walk_is_known(check_only_bits(directories))
    &&& walk_is_known(hash_valid_bits(directories))
}

/// The bytes of all that follows the directory blocks.
pub open spec fn attributes_bytes(directories: Seq<DirectoryView>) -> Seq<u8> {
    bitmaps_bytes(directories) + present_bytes(stat_values(directories)) + present_bytes(
        oid_values(directories),
    ).push(0)
}

/// The payload of the extension that holds `cache`, whose object ids are of `kind`.
pub open spec fn cache_bytes(cache: UntrackedCacheView, kind: Kind) -> Seq<u8> {
    if cache.directories.len() == 0 {
        header_bytes(cache, kind)
    } else {
        header_bytes(cache, kind) + subtree_written(cache.directories, 0).0 + attributes_bytes(cache.directories)
    }
}

/// The bytes of several directories are those of the first ones, and those of the others.
pub proof fn lemma_blocks_bytes_split(directories: Seq<DirectoryView>, start: int, middle: int, end: int)
    requires
        0 <= start <= middle <= end <= directories.len(),
    ensures
        blocks_bytes(directories.subrange(start, end)) == blocks_bytes(directories.subrange(start, middle))
            + blocks_bytes(directories.subrange(middle, end)),
    decreases end - middle,
{
    let all = directories.subrange(start, end);
    let first = directories.subrange(start, middle);
    let second = directories.subrange(middle, end);
    if middle == end {
        assert(second =~= Seq::empty());
        assert(blocks_bytes(first) + blocks_bytes(second) =~= blocks_bytes(first));
    } else {
        lemma_blocks_bytes_split(directories, start, middle, end - 1);
        assert(all.drop_last() =~= directories.subrange(start, end - 1));
        assert(second.drop_last() =~= directories.subrange(middle, end - 1));
        assert(all.last() == second.last());
        assert(blocks_bytes(all) =~= blocks_bytes(first) + blocks_bytes(second));
    }
}

/// The bytes of one directory.
pub proof fn lemma_blocks_bytes_one(directories: Seq<DirectoryView>, index: int)
    requires
        0 <= index < directories.len(),
    ensures
        blocks_bytes(directories.subrange(index, index + 1)) == block_head_bytes(directories[index]),
{
    let one = directories.subrange(index, index + 1);
    assert(one.drop_last() =~= Seq::empty());
    assert(blocks_bytes(one.drop_last()) =~= Seq::empty());
    assert(blocks_bytes(one) =~= block_head_bytes(directories[index]));
}

/// All directories at and below siblings are written in the order in which they are listed, if that is depth-first.
proof fn lemma_siblings_are_written_in_order(
    directories: Seq<DirectoryView>,
    children: Seq<usize>,
    next: int,
    depth: nat,
)
    requires
        0 <= next <= directories.len(),
        siblings_end(directories, children, next) matches Some(end) && depth >= end - next,
    ensures
        children_written(directories, children, depth) == (
            blocks_bytes(directories.subrange(next, siblings_end(directories, children, next)->0)),
            true,
        ),
    decreases directories.len() - next, children.len() + 1,
{
    let end = siblings_end(directories, children, next)->0;
    if children.len() == 0 {
        assert(directories.subrange(next, end) =~= Seq::empty());
    } else {
        let first_end = subtree_end(directories, next)->0;
        lemma_siblings_count(directories, children.drop_first(), first_end);
        lemma_subtree_is_written_in_order(directories, next, depth);
        lemma_siblings_are_written_in_order(directories, children.drop_first(), first_end, depth);
        lemma_blocks_bytes_split(directories, next, first_end, end);
    }
}

/// A directory and all below it are written in the order in which they are listed, if that is depth-first.
proof fn lemma_subtree_is_written_in_order(directories: Seq<DirectoryView>, index: int, depth: nat)
    requires
        subtree_end(directories, index) matches Some(end) && depth >= end - index,
    ensures
        directory_written(directories, index, depth) == (
            blocks_bytes(directories.subrange(index, subtree_end(directories, index)->0)),
            true,
        ),
    decreases directories.len() - index, 0nat,
{
    let end = subtree_end(directories, index)->0;
    let children = directories[index].sub_directories;
    lemma_siblings_count(directories, children, index + 1);
    lemma_siblings_are_written_in_order(directories, children, index + 1, (depth - 1) as nat);
    lemma_blocks_bytes_split(directories, index, index + 1, end);
    lemma_blocks_bytes_one(directories, index);
}

/// The directories of a tree are written in the order in which they are listed: from any of them, up to the last one
/// below it.
pub proof fn law_tree_is_written_in_order(directories: Seq<DirectoryView>, index: int)
    requires
        is_tree(directories),
        0 <= index < directories.len(),
    ensures
        subtree_end(directories, index) matches Some(end) && subtree_written(directories, index) == (
            blocks_bytes(directories.subrange(index, end)),
            true,
        ),
        subtree_written(directories, 0) == (blocks_bytes(directories), true),
{
    let len = directories.len() as int;
    lemma_subtree_of_subtree(directories, 0, index);
    lemma_siblings_count(directories, directories[index].sub_directories, index + 1);
    lemma_subtree_is_written_in_order(directories, index, directories.len());
    lemma_subtree_is_written_in_order(directories, 0, directories.len());
    assert(directories.subrange(0, len) =~= directories);
}

/// What is written of a directory does not depend on the depth, as long as that is not exceeded.
proof fn lemma_directory_written_within(directories: Seq<DirectoryView>, index: int, depth: nat, more: nat)
    requires
        nests_within(directories, index, depth),
        depth <= more,
    ensures
        directory_written(directories, index, depth) == directory_written(directories, index, more),
    decreases depth, 0nat,
{
    if 0 <= index < directories.len() {
        let children = directories[index].sub_directories;
        assert forall|k: int| 0 <= k < children.len() implies nests_within(
            directories,
            #[trigger] children[k] as int,
            (depth - 1) as nat,
        ) by {
            assert(children[k] == directories[index].sub_directories[k]);
        }
        lemma_children_written_within(directories, children, (depth - 1) as nat, (more - 1) as nat);
    }
}

/// What is written of several directories does not depend on the depth, as long as that is not exceeded.
proof fn lemma_children_written_within(
    directories: Seq<DirectoryView>,
    children: Seq<usize>,
    depth: nat,
    more: nat,
)
    requires
        forall|k: int| 0 <= k < children.len() ==> nests_within(directories, #[trigger] children[k] as int, depth),
        depth <= more,
    ensures
        children_written(directories, children, depth) == children_written(directories, children, more),
    decreases depth, children.len() + 1,
{
    if children.len() > 0 {
        let others = children.drop_first();
        lemma_directory_written_within(directories, children[0] as int, depth, more);
        assert forall|k: int| 0 <= k < others.len() implies nests_within(
            directories,
            #[trigger] others[k] as int,
            depth,
        ) by {
            assert(others[k] == children[k + 1]);
        }
        lemma_children_written_within(directories, others, depth, more);
    }
}

/// The amount of directories is a depth that is never exceeded if no directory is nested within itself: to admit more
/// does not change what is written.
pub proof fn law_depth_is_sufficient(directories: Seq<DirectoryView>, index: int, depth: nat)
    requires
        is_acyclic(directories),
        depth >= directories.len(),
    ensures
        directory_written(directories, index, depth) == subtree_written(directories, index),
{
    if 0 <= index < directories.len() {
        assert(nests_within(directories, index, directories.len()));
        lemma_directory_written_within(directories, index, directories.len(), depth);
    }
}

/// Several directories are written completely exactly if each of them is.
proof fn lemma_children_are_complete(directories: Seq<DirectoryView>, children: Seq<usize>, depth: nat)
    ensures
        children_written(directories, children, depth).1 <==> forall|k: int|
            0 <= k < children.len() ==> directory_written(directories, #[trigger] children[k] as int, depth).1,
    decreases children.len(),
{
    if children.len() > 0 {
        let others = children.drop_first();
        lemma_children_are_complete(directories, others, depth);
        assert forall|k: int| 0 <= k < others.len() implies others[k] == #[trigger] children[k + 1] by {}
        if children_written(directories, children, depth).1 {
            assert forall|k: int| 0 <= k < children.len() implies directory_written(
                directories,
                #[trigger] children[k] as int,
                depth,
            ).1 by {
                if k > 0 {
                    assert(children[k] == others[k - 1]);
                }
            }
        }
        if forall|k: int|
            0 <= k < children.len() ==> directory_written(directories, #[trigger] children[k] as int, depth).1 {
            assert(directory_written(directories, children[0] as int, depth).1);
            assert forall|k: int| 0 <= k < others.len() implies directory_written(
                directories,
                #[trigger] others[k] as int,
                depth,
            ).1 by {
                assert(others[k] == children[k + 1]);
            }
        }
    }
}

/// A directory is written completely exactly if it exists, and all its sub-directories are written completely. Nothing
/// is written of a directory that does not exist.
pub proof fn law_existing_directories_are_written(directories: Seq<DirectoryView>, index: int)
    requires
        is_acyclic(directories),
    ensures
        !(0 <= index < directories.len()) ==> subtree_written(directories, index) == (Seq::<u8>::empty(), false),
        0 <= index < directories.len() ==> (subtree_written(directories, index).1 <==> forall|k: int|
            0 <= k < directories[index].sub_directories.len() ==> subtree_written(
                directories,
                #[trigger] directories[index].sub_directories[k] as int,
            ).1),
{
    if 0 <= index < directories.len() {
        let children = directories[index].sub_directories;
        let depth = (directories.len() - 1) as nat;
        assert(nests_within(directories, index, directories.len()));
        assert forall|k: int| 0 <= k < children.len() implies directory_written(
            directories,
            #[trigger] children[k] as int,
            depth,
        ) == subtree_written(directories, children[k] as int) by {
            assert(children[k] == directories[index].sub_directories[k]);
            lemma_directory_written_within(directories, children[k] as int, depth, directories.len());
        }
        lemma_children_are_complete(directories, children, depth);
    }
}

/// Values are written one after another, and nothing is written of those that are absent.
proof fn lemma_each_value_is_written(values: Seq<Option<Seq<u8>>>, index: int)
    requires
        0 <= index < values.len(),
    ensures
        present_bytes(values) == present_bytes(values.take(index)) + (match values[index] {
            Some(bytes) => bytes,
            None => Seq::empty(),
        }) + present_bytes(values.skip(index + 1)),
    decreases values.len(),
{
    let before = values.drop_last();
    let value = match values[index] {
        Some(bytes) => bytes,
        None => Seq::empty(),
    };
    let front = present_bytes(values.take(index)) + value;
    if index == values.len() - 1 {
        assert(values.take(index) =~= before);
        assert(values.skip(index + 1) =~= Seq::empty());
        assert(present_bytes(values) =~= front);
        assert(front + Seq::<u8>::empty() =~= front);
    } else {
        lemma_each_value_is_written(before, index);
        let behind = values.skip(index + 1);
        assert(before.take(index) =~= values.take(index));
        assert(behind.drop_last() =~= before.skip(index + 1));
        assert(behind.last() == values.last());
        if let Some(last) = values.last() {
            assert(front + present_bytes(behind.drop_last()) + last =~= front + (present_bytes(behind.drop_last())
                + last));
        }
    }
}

/// What follows the directories are the bitmaps, the stat information of each directory that has it, the ids of the
/// exclude files of all directories that have one, both in the order of directories, and a NUL byte.
pub proof fn law_attributes_are_written_in_order(directories: Seq<DirectoryView>, index: int)
    requires
        0 <= index < directories.len(),
    ensures
        attributes_bytes(directories) == bitmaps_bytes(directories) + present_bytes(stat_values(directories))
            + present_bytes(oid_values(directories)) + seq![0u8],
        present_bytes(stat_values(Seq::empty())) == Seq::<u8>::empty(),
        present_bytes(oid_values(Seq::empty())) == Seq::<u8>::empty(),
        present_bytes(stat_values(directories)) == present_bytes(stat_values(directories.take(index))) + (
        match directories[index].stat {
            Some(stat) => stat_bytes(stat),
            None => Seq::empty(),
        }) + present_bytes(stat_values(directories.skip(index + 1))),
        present_bytes(oid_values(directories)) == present_bytes(oid_values(directories.take(index))) + (
        match directories[index].exclude_file_oid {
            Some(id) => id,
            None => Seq::empty(),
        }) + present_bytes(oid_values(directories.skip(index + 1))),
{
    let stats = stat_values(directories);
    let ids = oid_values(directories);
    lemma_each_value_is_written(stats, index);
    lemma_each_value_is_written(ids, index);
    assert(stats.take(index) =~= stat_values(directories.take(index)));
    assert(stats.skip(index + 1) =~= stat_values(directories.skip(index + 1)));
    assert(ids.take(index) =~= oid_values(directories.take(index)));
    assert(ids.skip(index + 1) =~= oid_values(directories.skip(index + 1)));
    assert(stat_values(Seq::empty()) =~= Seq::empty());
    assert(oid_values(Seq::empty()) =~= Seq::empty());
    assert(attributes_bytes(directories) =~= bitmaps_bytes(directories) + present_bytes(stats) + present_bytes(ids)
        + seq![0u8]);
}

/// A cache is written as its header, and as the directories and their attributes if there is any directory.
pub proof fn law_cache_is_written_in_order(cache: UntrackedCacheView, kind: Kind)
    requires
        cache.directories.len() > 0 ==> is_tree(cache.directories),
    ensures
        is_complete(cache.directories),
        cache.directories.len() == 0 ==> cache_bytes(cache, kind) == header_bytes(cache, kind),
        cache.directories.len() > 0 ==> cache_bytes(cache, kind) == header_bytes(cache, kind) + blocks_bytes(
            cache.directories,
        ) + attributes_bytes(cache.directories),
{
    if cache.directories.len() > 0 {
        law_tree_is_written_in_order(cache.directories, 0);
    }
}

} // verus!
