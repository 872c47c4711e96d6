//! What holds of all untracked caches that are decoded.

use vstd::prelude::*;

use crate::entry::STAT_LEN;
use crate::extension::untracked_cache::encoding::attributes_bytes;
use crate::extension::untracked_cache::encoding::law_tree_is_written_in_order;
use crate::extension::untracked_cache::encoding::strings_bytes;
use crate::extension::untracked_cache::encoding::subtree_written;
use crate::extension::untracked_cache::format::attributed;
use crate::extension::untracked_cache::format::attributes_parsed;
use crate::extension::untracked_cache::format::bitmaps_parsed;
use crate::extension::untracked_cache::format::block_counts_parsed;
use crate::extension::untracked_cache::format::block_head_parsed;
use crate::extension::untracked_cache::format::cache_parsed;
use crate::extension::untracked_cache::format::checked_header_parsed;
use crate::extension::untracked_cache::format::directory_parsed;
use crate::extension::untracked_cache::format::exceeds_limit;
use crate::extension::untracked_cache::format::lemma_block_head_shrinks;
use crate::extension::untracked_cache::format::lemma_directory_shrinks;
use crate::extension::untracked_cache::format::lemma_strings_parsed;
use crate::extension::untracked_cache::format::lemma_sub_directories_shrink;
use crate::extension::untracked_cache::format::strings_parsed;
use crate::extension::untracked_cache::format::sub_directories_parsed;
use crate::extension::untracked_cache::format::value_of;
use crate::extension::untracked_cache::round_trip::are_terminable;
use crate::extension::untracked_cache::round_trip::entries_have_room;
use crate::extension::untracked_cache::round_trip::file_is_readable;
use crate::extension::untracked_cache::round_trip::has_id_of;
use crate::extension::untracked_cache::round_trip::has_room;
use crate::extension::untracked_cache::round_trip::is_readable;
use crate::extension::untracked_cache::round_trip::is_terminable;
use crate::extension::untracked_cache::round_trip::law_directory_block_read_gives_back_written;
use crate::extension::untracked_cache::round_trip::plain_directories;
use crate::extension::untracked_cache::structure::is_tree;
use crate::extension::untracked_cache::structure::lemma_parsed_tree;
use crate::extension::untracked_cache::Directory;
use crate::extension::untracked_cache::DirectoryView;
use crate::extension::untracked_cache::UntrackedCacheView;
use crate::hash::digest_len;
use crate::hash::Kind;
use crate::util::lemma_split_at_byte_parts;
use crate::util::split_at_byte;
use crate::util::split_bytes;
use crate::util::var_int_parsed;

verus! {

/// Whether `larger` admits all that `limit` admits.
pub open spec fn is_no_stricter(larger: Option<usize>, limit: Option<usize>) -> bool {
    match (larger, limit) {
        (Some(larger), Some(limit)) => larger >= limit,
        (Some(_), None) => false,
        (None, _) => true,
    }
}

/// A directory block that is read within a limit is read the same way within a larger one.
proof fn lemma_directory_limit(data: Seq<u8>, index: nat, limit: Option<usize>, larger: Option<usize>)
    requires
        is_no_stricter(larger, limit),
    ensures
        directory_parsed(data, index, limit) is Some ==> directory_parsed(data, index, larger) == directory_parsed(
            data,
            index,
            limit,
        ),
    decreases data.len(), 0nat,
{
    if let Some((head, tail)) = block_head_parsed(data, limit) {
        lemma_block_head_shrinks(data, limit);
        assert(block_head_parsed(data, larger) == block_head_parsed(data, limit));
        lemma_sub_directories_limit(tail, index + 1, head.num_sub_directories, limit, larger);
    }
}

/// Directory blocks that are read within a limit are read the same way within a larger one.
proof fn lemma_sub_directories_limit(
    data: Seq<u8>,
    index: nat,
    count: nat,
    limit: Option<usize>,
    larger: Option<usize>,
)
    requires
        is_no_stricter(larger, limit),
    ensures
        sub_directories_parsed(data, index, count, limit) is Some ==> sub_directories_parsed(data, index, count, larger)
            == sub_directories_parsed(data, index, count, limit),
    decreases data.len(), 1nat,
{
    if count > 0 {
        lemma_directory_limit(data, index, limit, larger);
        lemma_directory_shrinks(data, index, limit);
        if let Some((first, tail)) = directory_parsed(data, index, limit) {
            lemma_sub_directories_limit(tail, index + first.len(), (count - 1) as nat, limit, larger);
        }
    }
}

/// A limit on memory never changes what is decoded: what is decoded within a limit is decoded the same way within a
/// larger one, or without any.
pub proof fn law_limit_only_refuses(data: Seq<u8>, kind: Kind, limit: Option<usize>, larger: Option<usize>)
    requires
        is_no_stricter(larger, limit),
    ensures
        cache_parsed(data, kind, limit) is Some ==> cache_parsed(data, kind, larger) == cache_parsed(data, kind, limit),
{
    if let Some((_, tail)) = checked_header_parsed(data, kind) {
        lemma_directory_limit(tail, 0, limit, larger);
    }
}

/// Whether the lists of `directory` take no more than `limit` bytes of memory.
pub open spec fn is_within_limit(directory: DirectoryView, limit: Option<usize>) -> bool {
    &&& !exceeds_limit(directory.untracked_entries.len() as int, vstd::layout::size_of::<Vec<u8>>(), limit)
    &&& !exceeds_limit(directory.sub_directories.len() as int, vstd::layout::size_of::<usize>(), limit)
}

/// The lists of all directories of a block are within the limit.
proof fn lemma_read_directory_is_within_limit(data: Seq<u8>, index: nat, limit: Option<usize>)
    ensures
        directory_parsed(data, index, limit) matches Some((directories, _)) ==> forall|i: int|
            0 <= i < directories.len() ==> is_within_limit(#[trigger] directories[i], limit),
    decreases data.len(), 0nat,
{
    if let Some((head, tail)) = block_head_parsed(data, limit) {
        lemma_block_head_shrinks(data, limit);
        lemma_read_sub_directories_are_within_limit(tail, index + 1, head.num_sub_directories, limit);
        lemma_sub_directories_shrink(tail, index + 1, head.num_sub_directories, limit);
        let (num_untracked, first) = var_int_parsed(data)->0;
        let (_, second) = var_int_parsed(first)->0;
        let (_, third) = split_at_byte(second, 0)->0;
        lemma_strings_parsed(third, num_untracked as nat, num_untracked as nat);
    }
}

/// The lists of all directories of several blocks are within the limit.
proof fn lemma_read_sub_directories_are_within_limit(data: Seq<u8>, index: nat, count: nat, limit: Option<usize>)
    ensures
        sub_directories_parsed(data, index, count, limit) matches Some((_, directories, _)) ==> forall|i: int|
            0 <= i < directories.len() ==> is_within_limit(#[trigger] directories[i], limit),
    decreases data.len(), 1nat,
{
    if count > 0 {
        lemma_read_directory_is_within_limit(data, index, limit);
        lemma_directory_shrinks(data, index, limit);
        if let Some((first, tail)) = directory_parsed(data, index, limit) {
            lemma_read_sub_directories_are_within_limit(tail, index + first.len(), (count - 1) as nat, limit);
        }
    }
}

/// No list of a decoded cache takes more memory than the limit admits: neither that of all directories, nor those of
/// the untracked entries and sub-directories of each of them.
pub proof fn law_limit_is_respected(data: Seq<u8>, kind: Kind, limit: Option<usize>)
    ensures
        cache_parsed(data, kind, limit) matches Some(cache) ==> {
            &&& cache.directories.len() > 0 ==> !exceeds_limit(
                cache.directories.len() as int,
                vstd::layout::size_of::<Directory>(),
                limit,
            )
            &&& forall|i: int|
                0 <= i < cache.directories.len() ==> is_within_limit(#[trigger] cache.directories[i], limit)
        },
{
    if let Some(cache) = cache_parsed(data, kind, limit) {
        let (header, tail) = checked_header_parsed(data, kind)->0;
        if header.num_directories != 0 {
            let (parsed, rest) = directory_parsed(tail, 0, limit)->0;
            lemma_read_directory_is_within_limit(tail, 0, limit);
            lemma_read_attributes(parsed, rest, kind);
            assert forall|i: int| 0 <= i < cache.directories.len() implies is_within_limit(
                #[trigger] cache.directories[i],
                limit,
            ) by {
                assert(is_within_limit(parsed[i], limit));
            }
        }
    }
}

/// What lists of a decoded cache take of memory is bounded by the limit, as long as that is not the largest number: a
/// product that exceeds all numbers counts as that one.
pub proof fn law_limit_bounds_memory(data: Seq<u8>, kind: Kind, limit: usize)
    requires
        limit < usize::MAX,
    ensures
        cache_parsed(data, kind, Some(limit)) matches Some(cache) ==> {
            &&& cache.directories.len() * vstd::layout::size_of::<Directory>() <= limit
            &&& forall|i: int|
                0 <= i < cache.directories.len() ==> {
                    &&& (#[trigger] cache.directories[i]).untracked_entries.len() * vstd::layout::size_of::<Vec<u8>>()
                        <= limit
                    &&& cache.directories[i].sub_directories.len() * vstd::layout::size_of::<usize>() <= limit
                }
        },
{
    law_limit_is_respected(data, kind, Some(limit));
    if let Some(cache) = cache_parsed(data, kind, Some(limit)) {
        let directories = cache.directories;
        assert forall|i: int| 0 <= i < directories.len() implies (
        #[trigger] directories[i]).untracked_entries.len() * vstd::layout::size_of::<Vec<u8>>() <= limit
            && directories[i].sub_directories.len() * vstd::layout::size_of::<usize>() <= limit by {
            assert(is_within_limit(directories[i], Some(limit)));
        }
    }
}

/// Strings that are read are free of the byte that terminates them.
proof fn lemma_read_strings_are_terminable(data: Seq<u8>, count: nat)
    ensures
        strings_parsed(data, count) matches Some((strings, _)) ==> are_terminable(strings),
    decreases count,
{
    if count > 0 {
        lemma_read_strings_are_terminable(data, (count - 1) as nat);
        if let Some((_, tail)) = strings_parsed(data, (count - 1) as nat) {
            lemma_split_at_byte_parts(tail, 0);
        }
    }
}

/// The strings of all directories of a block are free of the byte that terminates them.
proof fn lemma_read_directory_is_terminable(data: Seq<u8>, index: nat, limit: Option<usize>)
    ensures
        directory_parsed(data, index, limit) matches Some((directories, _)) ==> forall|i: int|
            0 <= i < directories.len() ==> is_terminable(#[trigger] directories[i]),
    decreases data.len(), 0nat,
{
    if let Some((head, tail)) = block_head_parsed(data, limit) {
        lemma_block_head_shrinks(data, limit);
        lemma_read_sub_directories_are_terminable(tail, index + 1, head.num_sub_directories, limit);
        let (num_untracked, first) = var_int_parsed(data)->0;
        let (_, second) = var_int_parsed(first)->0;
        let (_, third) = split_at_byte(second, 0)->0;
        lemma_split_at_byte_parts(second, 0);
        lemma_read_strings_are_terminable(third, num_untracked as nat);
    }
}

/// The strings of all directories of several blocks are free of the byte that terminates them.
proof fn lemma_read_sub_directories_are_terminable(data: Seq<u8>, index: nat, count: nat, limit: Option<usize>)
    ensures
        sub_directories_parsed(data, index, count, limit) matches Some((_, directories, _)) ==> forall|i: int|
            0 <= i < directories.len() ==> is_terminable(#[trigger] directories[i]),
    decreases data.len(), 1nat,
{
    if count > 0 {
        lemma_read_directory_is_terminable(data, index, limit);
        lemma_directory_shrinks(data, index, limit);
        if let Some((first, tail)) = directory_parsed(data, index, limit) {
            lemma_read_sub_directories_are_terminable(tail, index + first.len(), (count - 1) as nat, limit);
        }
    }
}

/// A value that is found within `data` has the length that all values have.
proof fn lemma_value_len(data: Seq<u8>, owners: Seq<usize>, len: int, index: int)
    requires
        len >= 0,
        len * owners.len() <= data.len(),
    ensures
        value_of(data, owners, len, index) matches Some(bytes) ==> bytes.len() == len,
{
    if owners.contains(index as usize) {
        let position = owners.index_of(index as usize);
        assert(0 <= len * position && len * position + len <= len * owners.len()) by (nonlinear_arith)
            requires
                0 <= position < owners.len(),
                0 <= len,
        ;
    }
}

/// Attributes do not change which sub-directories there are or what they are named, and ids are of the right kind.
proof fn lemma_read_attributes(directories: Seq<DirectoryView>, data: Seq<u8>, kind: Kind)
    ensures
        attributes_parsed(directories, data, digest_len(kind)) matches Some(res) ==> {
            &&& res.len() == directories.len()
            &&& forall|i: int|
                0 <= i < res.len() ==> {
                    &&& (#[trigger] res[i]).name == directories[i].name
                    &&& res[i].untracked_entries == directories[i].untracked_entries
                    &&& res[i].sub_directories == directories[i].sub_directories
                    &&& has_id_of(res[i], kind)
                }
        },
{
    if let Some(res) = attributes_parsed(directories, data, digest_len(kind)) {
        let (bitmaps, rest) = bitmaps_parsed(data)->0;
        let stats_len = STAT_LEN * bitmaps.valid.set_bits().len();
        assert forall|i: int| 0 <= i < res.len() implies has_id_of(#[trigger] res[i], kind) by {
            assert(res[i] == attributed(directories[i], i, bitmaps, rest, digest_len(kind)));
            lemma_value_len(
                rest.subrange(stats_len, rest.len() as int),
                bitmaps.hash_valid.set_bits(),
                digest_len(kind),
                i,
            );
        }
    }
}

/// The directories of a decoded cache form a tree, which is listed in depth-first order from its root.
pub proof fn law_decoded_directories_form_a_tree(data: Seq<u8>, kind: Kind, limit: Option<usize>)
    ensures
        cache_parsed(data, kind, limit) matches Some(cache) ==> is_tree(cache.directories),
{
    if let Some(cache) = cache_parsed(data, kind, limit) {
        let (header, tail) = checked_header_parsed(data, kind)->0;
        if header.num_directories != 0 {
            let (parsed, rest) = directory_parsed(tail, 0, limit)->0;
            lemma_read_attributes(parsed, rest, kind);
            lemma_parsed_tree(tail, limit, cache.directories);
        }
    }
}

/// Whether no untracked entry of `cache` has an empty name.
pub open spec fn entries_are_named(cache: UntrackedCacheView) -> bool {
    forall|i: int, k: int|
        0 <= i < cache.directories.len() && 0 <= k < cache.directories[i].untracked_entries.len() ==> (
        #[trigger] cache.directories[i].untracked_entries[k]).len() > 0
}

/// Strings that are not empty take up at least two bytes each.
proof fn lemma_named_strings_len(strings: Seq<Seq<u8>>)
    requires
        forall|k: int| 0 <= k < strings.len() ==> (#[trigger] strings[k]).len() > 0,
    ensures
        strings_bytes(strings).len() >= 2 * strings.len(),
    decreases strings.len(),
{
    if strings.len() > 0 {
        lemma_named_strings_len(strings.drop_last());
    }
}

/// Untracked entries with a name always take up enough bytes for their amount to be accepted.
pub proof fn law_named_entries_have_room(cache: UntrackedCacheView)
    requires
        entries_are_named(cache),
    ensures
        entries_have_room(cache.directories),
{
    let directories = cache.directories;
    assert forall|i: int| 0 <= i < directories.len() implies #[trigger] has_room(
        directories,
        i,
        directories.len() as int,
        attributes_bytes(directories).len(),
    ) by {
        let strings = directories[i].untracked_entries;
        assert forall|k: int| 0 <= k < strings.len() implies (#[trigger] strings[k]).len() > 0 by {
            assert(cache.directories[i].untracked_entries[k].len() > 0);
        }
        lemma_named_strings_len(strings);
    }
}

/// Reading what is written of the directories of a tree gives them back, without the attributes that bitmaps add, and
/// leaves what follows, as long as names are free of the byte that terminates them and untracked entries have one.
pub proof fn law_written_directories_are_read_back(cache: UntrackedCacheView, rest: Seq<u8>)
    requires
        is_tree(cache.directories),
        0 < cache.directories.len() <= usize::MAX,
        entries_are_named(cache),
        forall|i: int|
            0 <= i < cache.directories.len() ==> is_terminable(#[trigger] cache.directories[i])
                && cache.directories[i].untracked_entries.len() <= u64::MAX,
    ensures
        directory_parsed(subtree_written(cache.directories, 0).0 + rest, 0, None) == Some(
            (plain_directories(cache.directories), rest),
        ),
{
    let directories = cache.directories;
    let len = directories.len() as int;
    law_tree_is_written_in_order(directories, 0);
    assert(directories.subrange(0, len) =~= directories);
    assert forall|i: int| 0 <= i < len implies is_terminable(#[trigger] directories[i])
        && directories[i].untracked_entries.len() <= u64::MAX && has_room(directories, i, len, rest.len()) by {
        let strings = directories[i].untracked_entries;
        assert forall|k: int| 0 <= k < strings.len() implies (#[trigger] strings[k]).len() > 0 by {
            assert(cache.directories[i].untracked_entries[k].len() > 0);
        }
        lemma_named_strings_len(strings);
    }
    law_directory_block_read_gives_back_written(directories, 0, len, rest);
}

/// A decoded cache can be written, and read again, unless the names of untracked entries are so short that their amount
/// would not be accepted.
pub proof fn law_decoded_cache_is_readable(data: Seq<u8>, kind: Kind, limit: Option<usize>)
    ensures
        cache_parsed(data, kind, limit) matches Some(cache) ==> is_readable(cache, kind) == entries_have_room(
            cache.directories,
        ),
{
    if let Some(cache) = cache_parsed(data, kind, limit) {
        law_decoded_directories_form_a_tree(data, kind, limit);
        lemma_decoded_header_is_readable(data, kind, limit);
        let (header, tail) = checked_header_parsed(data, kind)->0;
        if header.num_directories != 0 {
            let (parsed, rest) = directory_parsed(tail, 0, limit)->0;
            lemma_read_attributes(parsed, rest, kind);
            lemma_read_directory_is_terminable(tail, 0, limit);
            assert forall|i: int| 0 <= i < cache.directories.len() implies is_terminable(
                #[trigger] cache.directories[i],
            ) && has_id_of(cache.directories[i], kind) by {
                assert(is_terminable(parsed[i]));
            }
        }
    }
}

/// The header of a decoded cache can be read again once it was written.
#[verifier::rlimit(40)]
proof fn lemma_decoded_header_is_readable(data: Seq<u8>, kind: Kind, limit: Option<usize>)
    ensures
        cache_parsed(data, kind, limit) matches Some(cache) ==> {
            &&& !cache.exclude_filename_per_dir.contains(0)
            &&& file_is_readable(cache.info_exclude, kind)
            &&& file_is_readable(cache.excludes_file, kind)
        },
{
    assert(forall|tail: Seq<u8>, len: int|
        (#[trigger] split_bytes(tail, len)) matches Some((bytes, _)) ==> bytes.len() == len);
    assert forall|tail: Seq<u8>| (#[trigger] split_at_byte(tail, 0)) is Some implies !(split_at_byte(
        tail,
        0,
    )->0).0.contains(0) by {
        lemma_split_at_byte_parts(tail, 0);
    }
}

/// Whether `count` values of `size` bytes each take no more than `limit` bytes, where a product that exceeds all
/// numbers counts as the largest one.
pub open spec fn fits(count: nat, size: nat, limit: usize) -> bool {
    count * size <= limit || limit == usize::MAX
}

/// Whether the lists of `directory` each fit into `limit` bytes.
pub open spec fn directory_fits(directory: DirectoryView, limit: usize) -> bool {
    &&& fits(directory.untracked_entries.len(), vstd::layout::size_of::<Vec<u8>>(), limit)
    &&& fits(directory.sub_directories.len(), vstd::layout::size_of::<usize>(), limit)
}

/// A directory block is read within a limit if all its lists fit.
proof fn lemma_fitting_directory_is_read(data: Seq<u8>, index: nat, limit: usize)
    requires
        directory_parsed(data, index, None) matches Some((directories, _)) && forall|i: int|
            0 <= i < directories.len() ==> directory_fits(#[trigger] directories[i], limit),
    ensures
        directory_parsed(data, index, Some(limit)) == directory_parsed(data, index, None),
    decreases data.len(), 0nat,
{
    let (directories, _) = directory_parsed(data, index, None)->0;
    let (head, tail) = block_head_parsed(data, None)->0;
    let (counts, third) = block_counts_parsed(data, None)->0;
    let (indices, below, _) = sub_directories_parsed(tail, index + 1, head.num_sub_directories, None)->0;
    lemma_block_head_shrinks(data, None);
    lemma_sub_directories_shrink(tail, index + 1, head.num_sub_directories, None);
    lemma_strings_parsed(third, counts.num_untracked as nat, counts.num_untracked as nat);
    assert(directory_fits(directories[0], limit));
    assert(directories[0].untracked_entries.len() == counts.num_untracked);
    assert(directories[0].sub_directories.len() == counts.num_dirs);
    assert(!exceeds_limit(counts.num_untracked as int, vstd::layout::size_of::<Vec<u8>>(), Some(limit)));
    assert(!exceeds_limit(counts.num_dirs as int, vstd::layout::size_of::<usize>(), Some(limit)));
    assert(block_head_parsed(data, Some(limit)) == block_head_parsed(data, None));
    assert forall|i: int| 0 <= i < below.len() implies directory_fits(#[trigger] below[i], limit) by {
        assert(directories[i + 1] == below[i]);
    }
    lemma_fitting_sub_directories_are_read(tail, index + 1, head.num_sub_directories, limit);
}

/// Several directory blocks are read within a limit if all their lists fit.
proof fn lemma_fitting_sub_directories_are_read(data: Seq<u8>, index: nat, count: nat, limit: usize)
    requires
        sub_directories_parsed(data, index, count, None) matches Some((_, directories, _)) && forall|i: int|
            0 <= i < directories.len() ==> directory_fits(#[trigger] directories[i], limit),
    ensures
        sub_directories_parsed(data, index, count, Some(limit)) == sub_directories_parsed(data, index, count, None),
    decreases data.len(), 1nat,
{
    if count > 0 {
        let (_, directories, _) = sub_directories_parsed(data, index, count, None)->0;
        let (first, tail) = directory_parsed(data, index, None)->0;
        let (_, others, _) = sub_directories_parsed(tail, index + first.len(), (count - 1) as nat, None)->0;
        lemma_directory_shrinks(data, index, None);
        assert forall|i: int| 0 <= i < first.len() implies directory_fits(#[trigger] first[i], limit) by {
            assert(directories[i] == first[i]);
        }
        assert forall|i: int| 0 <= i < others.len() implies directory_fits(#[trigger] others[i], limit) by {
            assert(directories[first.len() + i] == others[i]);
        }
        lemma_fitting_directory_is_read(data, index, limit);
        lemma_fitting_sub_directories_are_read(tail, index + first.len(), (count - 1) as nat, limit);
    }
}

/// A limit refuses exactly the caches of which one list does not fit: that of all directories, or that of the untracked
/// entries or sub-directories of one of them.
pub proof fn law_limit_refuses_what_does_not_fit(data: Seq<u8>, kind: Kind, limit: usize)
    ensures
        cache_parsed(data, kind, None) matches Some(cache) ==> (cache_parsed(data, kind, Some(limit)) is Some <==> {
            &&& fits(cache.directories.len(), vstd::layout::size_of::<Directory>(), limit)
            &&& forall|i: int|
                0 <= i < cache.directories.len() ==> directory_fits(#[trigger] cache.directories[i], limit)
        }),
{
    if let Some(cache) = cache_parsed(data, kind, None) {
        let (header, tail) = checked_header_parsed(data, kind)->0;
        law_limit_only_refuses(data, kind, Some(limit), None);
        law_limit_is_respected(data, kind, Some(limit));
        if header.num_directories != 0 {
            let (parsed, rest) = directory_parsed(tail, 0, None)->0;
            lemma_read_attributes(parsed, rest, kind);
            if cache_parsed(data, kind, Some(limit)) is Some {
                assert forall|i: int| 0 <= i < cache.directories.len() implies directory_fits(
                    #[trigger] cache.directories[i],
                    limit,
                ) by {
                    assert(is_within_limit(cache.directories[i], Some(limit)));
                }
            }
            if fits(cache.directories.len(), vstd::layout::size_of::<Directory>(), limit) && forall|i: int|
                0 <= i < cache.directories.len() ==> directory_fits(#[trigger] cache.directories[i], limit) {
                assert forall|i: int| 0 <= i < parsed.len() implies directory_fits(#[trigger] parsed[i], limit) by {
                    assert(directory_fits(cache.directories[i], limit));
                }
                lemma_fitting_directory_is_read(tail, 0, limit);
            }
        }
    }
}

} // verus!
