//! Where each part of an untracked cache is found among its bytes.

use vstd::prelude::*;

use crate::bitmap::bitmap_parsed;
use crate::bitmap::is_ascending;
use crate::bitmap::law_bitmap_is_written_as_read;
use crate::bitmap::law_bitmap_read_gives_back_written;
use crate::bitmap::literal_bitmap;
use crate::bitmap::Bitmap;
use crate::decode::law_stat_read_gives_back_written;
use crate::decode::stat_parsed;
use crate::entry::stat_bytes;
use crate::entry::stat_value;
use crate::entry::Stat;
use crate::entry::STAT_LEN;
use crate::extension::untracked_cache::encoding::bitmaps_bytes;
use crate::extension::untracked_cache::encoding::block_head_bytes;
use crate::extension::untracked_cache::encoding::blocks_bytes;
use crate::extension::untracked_cache::encoding::check_only_bits;
use crate::extension::untracked_cache::encoding::file_id;
use crate::extension::untracked_cache::encoding::file_stat;
use crate::extension::untracked_cache::encoding::hash_valid_bits;
use crate::extension::untracked_cache::encoding::header_bytes;
use crate::extension::untracked_cache::encoding::lemma_blocks_bytes_one;
use crate::extension::untracked_cache::encoding::lemma_blocks_bytes_split;
use crate::extension::untracked_cache::encoding::optional_id_bytes;
use crate::extension::untracked_cache::encoding::optional_stat_bytes;
use crate::extension::untracked_cache::encoding::strings_bytes;
use crate::extension::untracked_cache::encoding::valid_bits;
use crate::extension::untracked_cache::format::assembled;
use crate::extension::untracked_cache::format::attributed;
use crate::extension::untracked_cache::format::attributes_parsed;
use crate::extension::untracked_cache::format::bitmaps_parsed;
use crate::extension::untracked_cache::format::block_head_parsed;
use crate::extension::untracked_cache::format::cache_parsed;
use crate::extension::untracked_cache::format::checked_header_parsed;
use crate::extension::untracked_cache::format::directory_parsed;
use crate::extension::untracked_cache::format::header_parsed;
use crate::extension::untracked_cache::format::identifier_parsed;
use crate::extension::untracked_cache::format::lemma_block_head_shrinks;
use crate::extension::untracked_cache::format::is_plain;
use crate::extension::untracked_cache::format::lemma_directories_are_announced;
use crate::extension::untracked_cache::format::lemma_directory_is_plain;
use crate::extension::untracked_cache::format::lemma_directory_shrinks;
use crate::extension::untracked_cache::format::lemma_sub_directories_shrink;
use crate::extension::untracked_cache::format::lemma_value_at;
use crate::extension::untracked_cache::format::may_hold_directories;
use crate::extension::untracked_cache::format::present_file;
use crate::extension::untracked_cache::format::strings_parsed;
use crate::extension::untracked_cache::format::sub_directories_parsed;
use crate::extension::untracked_cache::format::Bitmaps;
use crate::extension::untracked_cache::format::Header;
use crate::extension::untracked_cache::round_trip::are_terminable;
use crate::extension::untracked_cache::round_trip::can_be_read;
use crate::extension::untracked_cache::round_trip::has_room;
use crate::extension::untracked_cache::round_trip::is_terminable;
use crate::extension::untracked_cache::round_trip::law_directory_block_read_gives_back_written;
use crate::extension::untracked_cache::round_trip::lemma_appended;
use crate::extension::untracked_cache::round_trip::lemma_blocks_len;
use crate::extension::untracked_cache::round_trip::lemma_strings_read;
use crate::extension::untracked_cache::round_trip::plain_directories;
use crate::extension::untracked_cache::structure::is_tree;
use crate::extension::untracked_cache::DirectoryView;
use crate::extension::untracked_cache::OidStatView;
use crate::extension::untracked_cache::UntrackedCacheView;
use crate::hash::digest_len;
use crate::hash::is_zero;
use crate::hash::Kind;
use crate::util::law_terminated_string_is_found;
use crate::util::law_u32_read_gives_back_written;
use crate::util::law_var_int_read_gives_back_written;
use crate::util::law_var_int_representation_is_unique;
use crate::util::lemma_split_at_byte_parts;
use crate::util::lemma_split_bytes_append;
use crate::util::split_at_byte;
use crate::util::split_bytes;
use crate::util::u32_be_bytes;
use crate::util::u32_be_value;
use crate::util::u32_parsed;
use crate::util::var_int_bytes;
use crate::util::var_int_parsed;

verus! {

/// Strings are written one after another, each followed by a NUL byte.
pub proof fn law_each_string_is_terminated(strings: Seq<Seq<u8>>, index: int)
    requires
        0 <= index < strings.len(),
    ensures
        strings_bytes(Seq::empty()) == Seq::<u8>::empty(),
        strings_bytes(strings) == strings_bytes(strings.take(index)) + strings[index] + seq![0u8] + strings_bytes(
            strings.skip(index + 1),
        ),
    decreases strings.len(),
{
    let before = strings.drop_last();
    let last = strings.last();
    if index == strings.len() - 1 {
        assert(strings.take(index) =~= before);
        assert(strings.skip(index + 1) =~= Seq::empty());
        assert(strings_bytes(strings) =~= strings_bytes(before) + last + seq![0u8] + Seq::<u8>::empty());
    } else {
        law_each_string_is_terminated(before, index);
        assert(before.take(index) =~= strings.take(index));
        assert(strings.skip(index + 1).drop_last() =~= before.skip(index + 1));
        assert(strings.skip(index + 1).last() == last);
        let front = strings_bytes(strings.take(index)) + strings[index] + seq![0u8];
        lemma_appended(front, strings_bytes(before.skip(index + 1)), last.push(0));
    }
}

/// Strings that are read are found in the data one after another, each followed by a NUL byte that it does not hold.
pub proof fn law_strings_are_found_in_data(data: Seq<u8>, count: nat)
    ensures
        strings_parsed(data, count) matches Some((strings, rest)) ==> {
            &&& strings.len() == count
            &&& are_terminable(strings)
            &&& data == strings_bytes(strings) + rest
        },
    decreases count,
{
    if count == 0 {
        assert(strings_bytes(Seq::empty()) + data =~= data);
    } else {
        law_strings_are_found_in_data(data, (count - 1) as nat);
        if let Some((strings, tail)) = strings_parsed(data, (count - 1) as nat) {
            lemma_split_at_byte_parts(tail, 0);
            if let Some((string, rest)) = split_at_byte(tail, 0) {
                let all = strings.push(string);
                assert(all.drop_last() =~= strings);
                lemma_appended(strings_bytes(strings), string.push(0), rest);
            }
        }
    }
}

/// What a block says of its directory is found in the data in this order: the amount of untracked entries, the amount
/// of sub-directories, the name and a NUL byte, and the names of untracked entries.
pub proof fn law_block_head_is_found_in_data(data: Seq<u8>, limit: Option<usize>)
    ensures
        block_head_parsed(data, limit) matches Some((head, rest)) ==> {
            &&& data == var_int_bytes(head.untracked_entries.len()) + var_int_bytes(head.num_sub_directories)
                + head.name + seq![0u8] + strings_bytes(head.untracked_entries) + rest
            &&& !head.name.contains(0)
            &&& are_terminable(head.untracked_entries)
        },
{
    if let Some((head, rest)) = block_head_parsed(data, limit) {
        let (num_untracked, first) = var_int_parsed(data)->0;
        let (num_dirs, second) = var_int_parsed(first)->0;
        let (name, third) = split_at_byte(second, 0)->0;
        law_var_int_representation_is_unique(data);
        law_var_int_representation_is_unique(first);
        lemma_split_at_byte_parts(second, 0);
        law_strings_are_found_in_data(third, num_untracked as nat);
        let a = var_int_bytes(num_untracked as nat);
        let b = var_int_bytes(num_dirs as nat);
        let strings = strings_bytes(head.untracked_entries);
        lemma_appended(a, b, second);
        assert(name.push(0) =~= name + seq![0u8]);
        lemma_appended(a + b, name + seq![0u8], third);
        lemma_appended(a + b, name, seq![0u8]);
        lemma_appended(a + b + name + seq![0u8], strings, rest);
    }
}

/// A block head is accepted exactly if neither of its counts exceeds half the bytes that follow the name.
pub proof fn law_block_head_is_accepted(directory: DirectoryView, rest: Seq<u8>)
    requires
        !directory.name.contains(0),
        are_terminable(directory.untracked_entries),
        directory.untracked_entries.len() <= u64::MAX,
        directory.sub_directories.len() <= u64::MAX,
    ensures
        ({
            let entries = strings_bytes(directory.untracked_entries);
            let data = var_int_bytes(directory.untracked_entries.len()) + var_int_bytes(directory.sub_directories.len())
                + directory.name + seq![0u8] + entries + rest;
            let available = entries.len() + rest.len();
            if 2 * directory.untracked_entries.len() <= available && 2 * directory.sub_directories.len() <= available {
                &&& block_head_parsed(data, None) matches Some((head, tail))
                &&& head.name == directory.name
                &&& head.untracked_entries == directory.untracked_entries
                &&& head.num_sub_directories == directory.sub_directories.len()
                &&& tail == rest
            } else {
                block_head_parsed(data, None) is None
            }
        }),
{
    let num_untracked = directory.untracked_entries.len() as u64;
    let num_dirs = directory.sub_directories.len() as u64;
    let entries = strings_bytes(directory.untracked_entries);
    let a = var_int_bytes(num_untracked as nat);
    let b = var_int_bytes(num_dirs as nat);
    let data = a + b + directory.name + seq![0u8] + entries + rest;
    let third = entries + rest;
    let second = directory.name.push(0) + third;
    let first = b + second;
    assert(directory.name + seq![0u8] =~= directory.name.push(0));
    lemma_appended(a + b, directory.name, seq![0u8]);
    lemma_appended(a + b + directory.name.push(0), entries, rest);
    lemma_appended(a + b, directory.name.push(0), third);
    lemma_appended(a, b, second);
    assert(data == a + first);
    law_var_int_read_gives_back_written(num_untracked, first);
    law_var_int_read_gives_back_written(num_dirs, second);
    law_terminated_string_is_found(directory.name, 0, third);
    if 2 * num_untracked <= third.len() && 2 * num_dirs <= third.len() {
        lemma_strings_read(directory.untracked_entries, rest);
    }
}

/// A block of a directory is refused if it announces more entries or sub-directories than half the bytes that follow
/// its name, whatever these are.
pub proof fn law_implausible_counts_are_refused(
    num_untracked: u64,
    num_dirs: u64,
    name: Seq<u8>,
    rest: Seq<u8>,
    index: nat,
    limit: Option<usize>,
)
    requires
        !name.contains(0),
        2 * num_untracked > rest.len() || 2 * num_dirs > rest.len(),
    ensures
        directory_parsed(
            var_int_bytes(num_untracked as nat) + var_int_bytes(num_dirs as nat) + name.push(0) + rest,
            index,
            limit,
        ) is None,
{
    let a = var_int_bytes(num_untracked as nat);
    let b = var_int_bytes(num_dirs as nat);
    let second = name.push(0) + rest;
    lemma_appended(a + b, name.push(0), rest);
    lemma_appended(a, b, second);
    law_var_int_read_gives_back_written(num_untracked, b + second);
    law_var_int_read_gives_back_written(num_dirs, second);
    law_terminated_string_is_found(name, 0, rest);
}

/// Directories are written one after another, each as its amount of untracked entries, its amount of sub-directories,
/// its name and a NUL byte, and the names of its untracked entries.
pub proof fn law_each_directory_is_written(directories: Seq<DirectoryView>, index: int)
    requires
        0 <= index < directories.len(),
    ensures
        blocks_bytes(Seq::empty()) == Seq::<u8>::empty(),
        blocks_bytes(directories) == blocks_bytes(directories.take(index)) + (var_int_bytes(
            directories[index].untracked_entries.len(),
        ) + var_int_bytes(directories[index].sub_directories.len()) + directories[index].name + seq![0u8]
            + strings_bytes(directories[index].untracked_entries)) + blocks_bytes(directories.skip(index + 1)),
{
    let len = directories.len() as int;
    let directory = directories[index];
    lemma_blocks_bytes_split(directories, 0, index, len);
    lemma_blocks_bytes_split(directories, index, index + 1, len);
    lemma_blocks_bytes_one(directories, index);
    assert(directories.subrange(0, len) =~= directories);
    assert(directories.subrange(0, index) =~= directories.take(index));
    assert(directories.subrange(index + 1, len) =~= directories.skip(index + 1));
    let counts = var_int_bytes(directory.untracked_entries.len()) + var_int_bytes(directory.sub_directories.len());
    assert(directory.name.push(0) =~= directory.name + seq![0u8]);
    lemma_appended(counts, directory.name, seq![0u8]);
    lemma_appended(
        blocks_bytes(directories.take(index)),
        block_head_bytes(directory),
        blocks_bytes(directories.skip(index + 1)),
    );
}

/// All directories of a block are found in the data one after another.
pub proof fn law_directories_are_found_in_data(data: Seq<u8>, index: nat, limit: Option<usize>)
    ensures
        directory_parsed(data, index, limit) matches Some((directories, rest)) ==> data == blocks_bytes(directories)
            + rest,
    decreases data.len(), 0nat,
{
    if let Some((head, tail)) = block_head_parsed(data, limit) {
        lemma_block_head_shrinks(data, limit);
        lemma_sub_directories_are_found_in_data(tail, index + 1, head.num_sub_directories, limit);
        lemma_sub_directories_shrink(tail, index + 1, head.num_sub_directories, limit);
        law_block_head_is_found_in_data(data, limit);
        if let Some((directories, rest)) = directory_parsed(data, index, limit) {
            let first = directories[0];
            let below = directories.skip(1);
            let counts = var_int_bytes(head.untracked_entries.len()) + var_int_bytes(head.num_sub_directories);
            assert(head.name.push(0) =~= head.name + seq![0u8]);
            lemma_appended(counts, head.name, seq![0u8]);
            assert(first.untracked_entries == head.untracked_entries);
            assert(block_head_bytes(first) == counts + head.name + seq![0u8] + strings_bytes(head.untracked_entries));
            assert(below =~= (sub_directories_parsed(tail, index + 1, head.num_sub_directories, limit)->0).1);
            let len = directories.len() as int;
            lemma_blocks_bytes_split(directories, 0, 1, len);
            lemma_blocks_bytes_one(directories, 0);
            assert(directories.subrange(0, len) =~= directories);
            assert(directories.subrange(1, len) =~= below);
            lemma_appended(block_head_bytes(first), blocks_bytes(below), rest);
        }
    }
}

/// All directories of several blocks are found in the data one after another.
proof fn lemma_sub_directories_are_found_in_data(data: Seq<u8>, index: nat, count: nat, limit: Option<usize>)
    ensures
        sub_directories_parsed(data, index, count, limit) matches Some((_, directories, rest)) ==> data == blocks_bytes(
            directories,
        ) + rest,
    decreases data.len(), 1nat,
{
    if count == 0 {
        assert(blocks_bytes(Seq::empty()) + data =~= data);
    } else {
        law_directories_are_found_in_data(data, index, limit);
        lemma_directory_shrinks(data, index, limit);
        if let Some((first, tail)) = directory_parsed(data, index, limit) {
            lemma_sub_directories_are_found_in_data(tail, index + first.len(), (count - 1) as nat, limit);
            if let Some((_, others, rest)) = sub_directories_parsed(
                tail,
                index + first.len(),
                (count - 1) as nat,
                limit,
            ) {
                let all = first + others;
                let middle = first.len() as int;
                let len = all.len() as int;
                lemma_blocks_bytes_split(all, 0, middle, len);
                assert(all.subrange(0, len) =~= all);
                assert(all.subrange(0, middle) =~= first);
                assert(all.subrange(middle, len) =~= others);
                lemma_appended(blocks_bytes(first), blocks_bytes(others), rest);
            }
        }
    }
}

/// Three bitmaps are read in the order in which they are written.
proof fn lemma_bitmaps_in_order(valid: Bitmap, check_only: Bitmap, hash_valid: Bitmap, values: Seq<u8>)
    requires
        valid.is_encodable(),
        check_only.is_encodable(),
        hash_valid.is_encodable(),
    ensures
        bitmaps_parsed(valid.encoded() + check_only.encoded() + hash_valid.encoded() + values) == Some(
            (Bitmaps { valid, check_only, hash_valid }, values),
        ),
{
    lemma_appended(valid.encoded() + check_only.encoded(), hash_valid.encoded(), values);
    lemma_appended(valid.encoded(), check_only.encoded(), hash_valid.encoded() + values);
    law_bitmap_read_gives_back_written(valid, check_only.encoded() + (hash_valid.encoded() + values));
    law_bitmap_read_gives_back_written(check_only, hash_valid.encoded() + values);
    law_bitmap_read_gives_back_written(hash_valid, values);
}

/// Attributes are accepted exactly if all bitmaps are well-formed and have at most as many bits as there are
/// directories, and if there are as many values as there are set bits, and one more byte.
///
/// The bitmaps come in this order: which directories have stat information, which are check-only, and which have the id
/// of an exclude file.
pub proof fn law_attributes_are_accepted(
    directories: Seq<DirectoryView>,
    valid: Bitmap,
    check_only: Bitmap,
    hash_valid: Bitmap,
    values: Seq<u8>,
    hash_len: int,
)
    requires
        valid.is_encodable(),
        check_only.is_encodable(),
        hash_valid.is_encodable(),
    ensures
        attributes_parsed(
            directories,
            valid.encoded() + check_only.encoded() + hash_valid.encoded() + values,
            hash_len,
        ) is Some <==> {
            &&& valid.num_bits <= directories.len()
            &&& check_only.num_bits <= directories.len()
            &&& hash_valid.num_bits <= directories.len()
            &&& valid.is_well_formed()
            &&& check_only.is_well_formed()
            &&& hash_valid.is_well_formed()
            &&& values.len() == 36 * valid.set_bits().len() + hash_len * hash_valid.set_bits().len() + 1
        },
{
    lemma_bitmaps_in_order(valid, check_only, hash_valid, values);
}

/// Attributes change nothing else of a directory, which is check-only if its bit is set, and has stat information and
/// the id of an exclude file if the respective bit is set.
///
/// The first of all values belongs to the directory of the first set bit, and so on: values of 36 bytes for stat
/// information come first, and those of `hash_len` bytes for ids follow.
pub proof fn law_attributes_belong_to_set_bits(
    directories: Seq<DirectoryView>,
    valid: Bitmap,
    check_only: Bitmap,
    hash_valid: Bitmap,
    values: Seq<u8>,
    hash_len: int,
)
    requires
        valid.is_encodable(),
        check_only.is_encodable(),
        hash_valid.is_encodable(),
        is_ascending(valid.set_bits()),
        is_ascending(hash_valid.set_bits()),
        directories.len() <= usize::MAX,
    ensures
        attributes_parsed(
            directories,
            valid.encoded() + check_only.encoded() + hash_valid.encoded() + values,
            hash_len,
        ) matches Some(res) ==> {
            &&& res.len() == directories.len()
            &&& forall|i: int|
                0 <= i < res.len() ==> {
                    &&& (#[trigger] res[i]).name == directories[i].name
                    &&& res[i].untracked_entries == directories[i].untracked_entries
                    &&& res[i].sub_directories == directories[i].sub_directories
                    &&& res[i].check_only == check_only.set_bits().contains(i as usize)
                    &&& res[i].stat is Some == valid.set_bits().contains(i as usize)
                    &&& res[i].exclude_file_oid is Some == hash_valid.set_bits().contains(i as usize)
                }
            &&& forall|j: int|
                0 <= j < valid.set_bits().len() && valid.set_bits()[j] < directories.len()
                    ==> res[#[trigger] valid.set_bits()[j] as int].stat == Some(
                    stat_value(values.subrange(36 * j, 36 * j + 36)),
                )
            &&& forall|j: int|
                0 <= j < hash_valid.set_bits().len() && hash_valid.set_bits()[j] < directories.len()
                    ==> res[#[trigger] hash_valid.set_bits()[j] as int].exclude_file_oid == Some(
                    values.skip(36 * valid.set_bits().len() as int).subrange(hash_len * j, hash_len * j + hash_len),
                )
        },
{
    let bitmaps = Bitmaps { valid, check_only, hash_valid };
    let data = valid.encoded() + check_only.encoded() + hash_valid.encoded() + values;
    lemma_bitmaps_in_order(valid, check_only, hash_valid, values);
    if let Some(res) = attributes_parsed(directories, data, hash_len) {
        let stats_len = 36 * valid.set_bits().len() as int;
        assert forall|i: int| 0 <= i < res.len() implies #[trigger] res[i] == attributed(
            directories[i],
            i,
            bitmaps,
            values,
            hash_len,
        ) by {}
        assert forall|j: int|
            0 <= j < valid.set_bits().len() && valid.set_bits()[j]
                < directories.len() implies res[#[trigger] valid.set_bits()[j] as int].stat == Some(
            stat_value(values.subrange(36 * j, 36 * j + 36)),
        ) by {
            lemma_value_at(values, valid.set_bits(), 36, j);
        }
        assert forall|j: int|
            0 <= j < hash_valid.set_bits().len() && hash_valid.set_bits()[j]
                < directories.len() implies res[#[trigger] hash_valid.set_bits()[j] as int].exclude_file_oid == Some(
            values.skip(stats_len).subrange(hash_len * j, hash_len * j + hash_len),
        ) by {
            assert(values.skip(stats_len) == values.subrange(stats_len, values.len() as int));
            lemma_value_at(values.skip(stats_len), hash_valid.set_bits(), hash_len, j);
        }
    }
}

/// Attributes that are read consist of three bitmaps and of values.
pub proof fn law_attributes_are_found_in_data(directories: Seq<DirectoryView>, data: Seq<u8>, hash_len: int)
    ensures
        attributes_parsed(directories, data, hash_len) is Some ==> exists|
            valid: Bitmap,
            check_only: Bitmap,
            hash_valid: Bitmap,
            values: Seq<u8>,
        |
            valid.is_encodable() && check_only.is_encodable() && hash_valid.is_encodable() && data
                == #[trigger] (valid.encoded() + check_only.encoded() + hash_valid.encoded() + values),
{
    if attributes_parsed(directories, data, hash_len) is Some {
        let (valid, first) = bitmap_parsed(data)->0;
        let (check_only, second) = bitmap_parsed(first)->0;
        let (hash_valid, values) = bitmap_parsed(second)->0;
        law_bitmap_is_written_as_read(data);
        law_bitmap_is_written_as_read(first);
        law_bitmap_is_written_as_read(second);
        lemma_appended(valid.encoded(), check_only.encoded(), second);
        lemma_appended(valid.encoded() + check_only.encoded(), hash_valid.encoded(), values);
    }
}

/// The bitmaps that are written have one bit per directory, which is set if the directory has the attribute.
pub proof fn law_bitmaps_have_one_bit_per_directory(
    directories: Seq<DirectoryView>,
    valid: Seq<bool>,
    check_only: Seq<bool>,
    hash_valid: Seq<bool>,
)
    requires
        valid.len() == directories.len(),
        check_only.len() == directories.len(),
        hash_valid.len() == directories.len(),
        forall|i: int|
            0 <= i < directories.len() ==> {
                &&& #[trigger] valid[i] == (directories[i].stat is Some)
                &&& check_only[i] == directories[i].check_only
                &&& hash_valid[i] == (directories[i].exclude_file_oid is Some)
            },
    ensures
        bitmaps_bytes(directories) == literal_bitmap(valid).encoded() + literal_bitmap(check_only).encoded()
            + literal_bitmap(hash_valid).encoded(),
{
    assert forall|i: int| 0 <= i < directories.len() implies check_only[i] == check_only_bits(directories)[i]
        && hash_valid[i] == hash_valid_bits(directories)[i] by {
        assert(valid[i] == (directories[i].stat is Some));
    }
    assert(valid =~= valid_bits(directories));
    assert(check_only =~= check_only_bits(directories));
    assert(hash_valid =~= hash_valid_bits(directories));
}

/// What is absent is written as zeros: 36 of them for stat information, and as many for an id as one of that kind has
/// bytes.
pub proof fn law_absent_parts_are_written_as_zeros(kind: Kind)
    ensures
        optional_stat_bytes(None).len() == 36,
        forall|i: int| 0 <= i < 36 ==> #[trigger] optional_stat_bytes(None)[i] == 0,
        optional_id_bytes(None, kind).len() == if kind is Sha1 {
            20int
        } else {
            32int
        },
        forall|i: int|
            0 <= i < optional_id_bytes(None, kind).len() ==> #[trigger] optional_id_bytes(None, kind)[i] == 0,
{
}

/// What follows in what follows some bytes is found in the data further on.
proof fn lemma_further_on(data: Seq<u8>, offset: int, start: int, end: int)
    requires
        0 <= offset,
        0 <= start <= end,
        offset + end <= data.len(),
    ensures
        data.skip(offset).subrange(start, end) == data.subrange(offset + start, offset + end),
        data.skip(offset).skip(end) == data.skip(offset + end),
        data.skip(offset).subrange(end, data.skip(offset).len() as int) == data.skip(offset + end),
{
    assert(data.skip(offset).subrange(start, end) =~= data.subrange(offset + start, offset + end));
    assert(data.skip(offset).skip(end) =~= data.skip(offset + end));
    assert(data.skip(offset).subrange(end, data.skip(offset).len() as int) =~= data.skip(offset + end));
}

/// The file with stat information at `stat_start` and an id of `hash_len` bytes at `id_start`, which isn't present if
/// the id is all zeros.
pub open spec fn is_file_at(
    file: Option<OidStatView>,
    data: Seq<u8>,
    stat_start: int,
    id_start: int,
    hash_len: int,
) -> bool {
    match file {
        Some(file) => {
            &&& file.stat == stat_value(data.subrange(stat_start, stat_start + 36))
            &&& file.id == data.subrange(id_start, id_start + hash_len)
            &&& exists|i: int| 0 <= i < hash_len && #[trigger] file.id[i] != 0
        },
        None => forall|i: int| id_start <= i < id_start + hash_len ==> #[trigger] data[i] == 0,
    }
}

/// All parts of a header are found in the data as they stand, in this order: the length of the identifier, the
/// identifier, 36 bytes of stat information for each of two files, four bytes of flags, the ids of both files, a name
/// with a NUL byte after it, and the amount of directories.
#[verifier::rlimit(40)]
proof fn lemma_header_is_found_in_data(data: Seq<u8>, hash_len: int)
    requires
        hash_len >= 0,
    ensures
        header_parsed(data, hash_len) matches Some((header, rest)) ==> {
            let len_bytes = var_int_bytes(header.identifier.len());
            let count_bytes = var_int_bytes(header.num_directories as nat);
            let start = len_bytes.len() + header.identifier.len() as int;
            let name = header.exclude_filename_per_dir;
            let name_start = start + 76 + 2 * hash_len;
            let end = name_start + name.len() + 1;
            &&& end + count_bytes.len() <= data.len()
            &&& data.take(len_bytes.len() as int) == len_bytes
            &&& data.subrange(len_bytes.len() as int, start) == header.identifier
            &&& header.info_exclude_stat == stat_value(data.subrange(start, start + 36))
            &&& header.excludes_file_stat == stat_value(data.subrange(start + 36, start + 72))
            &&& header.dir_flags == u32_be_value(data.subrange(start + 72, start + 76))
            &&& header.info_exclude_id == data.subrange(start + 76, start + 76 + hash_len)
            &&& header.excludes_file_id == data.subrange(start + 76 + hash_len, name_start)
            &&& data.subrange(name_start, name_start + name.len()) == name
            &&& data[name_start + name.len()] == 0
            &&& !name.contains(0)
            &&& data.subrange(end, end + count_bytes.len()) == count_bytes
            &&& rest == data.skip(end + count_bytes.len())
        },
{
    if let Some((header, rest)) = header_parsed(data, hash_len) {
        let (len, _) = var_int_parsed(data)->0;
        let (identifier, first) = identifier_parsed(data)->0;
        let (info_exclude_stat, second) = stat_parsed(first)->0;
        let (excludes_file_stat, third) = stat_parsed(second)->0;
        let (dir_flags, fourth) = u32_parsed(third)->0;
        let (info_exclude_id, fifth) = split_bytes(fourth, hash_len)->0;
        let (excludes_file_id, sixth) = split_bytes(fifth, hash_len)->0;
        let (name, seventh) = split_at_byte(sixth, 0)->0;
        let prefix = var_int_bytes(len as nat).len() as int;
        let start = prefix + len;
        let name_start = start + 76 + 2 * hash_len;
        lemma_identifier_at(data);
        assert(first == data.skip(start));
        lemma_stats_at(data, start, (info_exclude_stat, second), (excludes_file_stat, third), (dir_flags, fourth));
        lemma_ids_at(data, start + 76, hash_len, (info_exclude_id, fifth), (excludes_file_id, sixth));
        lemma_name_at(data, name_start, (name, seventh), (header.num_directories, rest));
    }
}

/// An identifier is found after its length.
proof fn lemma_identifier_at(data: Seq<u8>)
    ensures
        identifier_parsed(data) matches Some((identifier, rest)) ==> {
            let len_bytes = var_int_bytes(identifier.len());
            let start = len_bytes.len() + identifier.len() as int;
            &&& start <= data.len()
            &&& data.take(len_bytes.len() as int) == len_bytes
            &&& data.subrange(len_bytes.len() as int, start) == identifier
            &&& rest == data.skip(start)
        },
{
    assert(data.skip(0) =~= data);
    lemma_var_int_at(data, 0);
    if let Some((len, _)) = var_int_parsed(data) {
        let prefix = var_int_bytes(len as nat).len() as int;
        assert(data.subrange(0, prefix) =~= data.take(prefix));
        lemma_bytes_at(data, prefix, len as int);
    }
}

/// Both sets of stat information and the flags are found one after another.
proof fn lemma_stats_at(
    data: Seq<u8>,
    start: int,
    first: (Stat, Seq<u8>),
    second: (Stat, Seq<u8>),
    flags: (u32, Seq<u8>),
)
    requires
        0 <= start <= data.len(),
        stat_parsed(data.skip(start)) == Some(first),
        stat_parsed(first.1) == Some(second),
        u32_parsed(second.1) == Some(flags),
    ensures
        start + 76 <= data.len(),
        first.0 == stat_value(data.subrange(start, start + 36)),
        second.0 == stat_value(data.subrange(start + 36, start + 72)),
        flags.0 == u32_be_value(data.subrange(start + 72, start + 76)),
        flags.1 == data.skip(start + 76),
{
    lemma_stat_at(data, start);
    lemma_stat_at(data, start + 36);
    lemma_u32_at(data, start + 72);
}

/// Both ids are found one after another.
proof fn lemma_ids_at(
    data: Seq<u8>,
    start: int,
    hash_len: int,
    first: (Seq<u8>, Seq<u8>),
    second: (Seq<u8>, Seq<u8>),
)
    requires
        0 <= start <= data.len(),
        split_bytes(data.skip(start), hash_len) == Some(first),
        split_bytes(first.1, hash_len) == Some(second),
    ensures
        start + 2 * hash_len <= data.len(),
        first.0 == data.subrange(start, start + hash_len),
        second.0 == data.subrange(start + hash_len, start + 2 * hash_len),
        second.1 == data.skip(start + 2 * hash_len),
{
    lemma_bytes_at(data, start, hash_len);
    lemma_bytes_at(data, start + hash_len, hash_len);
}

/// The name and the amount of directories are found one after another.
proof fn lemma_name_at(data: Seq<u8>, start: int, name: (Seq<u8>, Seq<u8>), count: (u64, Seq<u8>))
    requires
        0 <= start <= data.len(),
        split_at_byte(data.skip(start), 0) == Some(name),
        var_int_parsed(name.1) == Some(count),
    ensures
        ({
            let end = start + name.0.len() + 1;
            let count_bytes = var_int_bytes(count.0 as nat);
            &&& end + count_bytes.len() <= data.len()
            &&& data.subrange(start, start + name.0.len()) == name.0
            &&& data[start + name.0.len()] == 0
            &&& !name.0.contains(0)
            &&& data.subrange(end, end + count_bytes.len()) == count_bytes
            &&& count.1 == data.skip(end + count_bytes.len())
        }),
{
    lemma_string_at(data, start);
    lemma_var_int_at(data, start + name.0.len() + 1);
}

/// Bytes that are split off what follows some others are found further on.
proof fn lemma_bytes_at(data: Seq<u8>, offset: int, len: int)
    requires
        0 <= offset <= data.len(),
    ensures
        split_bytes(data.skip(offset), len) matches Some((bytes, rest)) ==> {
            &&& 0 <= len && offset + len <= data.len()
            &&& bytes == data.subrange(offset, offset + len)
            &&& rest == data.skip(offset + len)
        },
{
    if 0 <= len && offset + len <= data.len() {
        lemma_further_on(data, offset, 0, len);
    }
}

/// Stat information that is read off what follows some bytes is found further on.
proof fn lemma_stat_at(data: Seq<u8>, offset: int)
    requires
        0 <= offset <= data.len(),
    ensures
        stat_parsed(data.skip(offset)) matches Some((stat, rest)) ==> {
            &&& offset + 36 <= data.len()
            &&& stat == stat_value(data.subrange(offset, offset + 36))
            &&& rest == data.skip(offset + 36)
        },
{
    lemma_bytes_at(data, offset, STAT_LEN as int);
}

/// A number that is read off what follows some bytes is found further on.
proof fn lemma_u32_at(data: Seq<u8>, offset: int)
    requires
        0 <= offset <= data.len(),
    ensures
        u32_parsed(data.skip(offset)) matches Some((value, rest)) ==> {
            &&& offset + 4 <= data.len()
            &&& value == u32_be_value(data.subrange(offset, offset + 4))
            &&& rest == data.skip(offset + 4)
        },
{
    lemma_bytes_at(data, offset, 4);
}

/// A terminated string that is read off what follows some bytes is found further on.
proof fn lemma_string_at(data: Seq<u8>, offset: int)
    requires
        0 <= offset <= data.len(),
    ensures
        split_at_byte(data.skip(offset), 0) matches Some((text, rest)) ==> {
            &&& offset + text.len() + 1 <= data.len()
            &&& text == data.subrange(offset, offset + text.len())
            &&& data[offset + text.len()] == 0
            &&& !text.contains(0)
            &&& rest == data.skip(offset + text.len() + 1)
        },
{
    let tail = data.skip(offset);
    lemma_split_at_byte_parts(tail, 0);
    if let Some((text, rest)) = split_at_byte(tail, 0) {
        let len = text.len() as int;
        assert(tail.subrange(0, len) =~= text);
        assert(tail[len] == 0);
        assert(rest =~= tail.skip(len + 1));
        lemma_further_on(data, offset, 0, len);
        lemma_further_on(data, offset, 0, len + 1);
    }
}

/// A variable-length integer that is read off what follows some bytes is found further on.
proof fn lemma_var_int_at(data: Seq<u8>, offset: int)
    requires
        0 <= offset <= data.len(),
    ensures
        var_int_parsed(data.skip(offset)) matches Some((value, rest)) ==> {
            let len = var_int_bytes(value as nat).len();
            &&& offset + len <= data.len()
            &&& var_int_bytes(value as nat) == data.subrange(offset, offset + len)
            &&& rest == data.skip(offset + len)
        },
{
    let tail = data.skip(offset);
    law_var_int_representation_is_unique(tail);
    if let Some((value, rest)) = var_int_parsed(tail) {
        let bytes = var_int_bytes(value as nat);
        let len = bytes.len() as int;
        assert(tail.subrange(0, len) =~= bytes);
        assert(rest =~= tail.skip(len));
        lemma_further_on(data, offset, 0, len);
    }
}

/// Directories that agree in all but their attributes are written to the same bytes.
proof fn lemma_blocks_without_attributes(directories: Seq<DirectoryView>)
    ensures
        blocks_bytes(plain_directories(directories)) == blocks_bytes(directories),
    decreases directories.len(),
{
    if directories.len() > 0 {
        lemma_blocks_without_attributes(directories.drop_last());
        assert(plain_directories(directories).drop_last() =~= plain_directories(directories.drop_last()));
    }
}

/// All parts of a cache in front of its directories are found in the data as they stand, and in this order: the length
/// of the identifier, the identifier, 36 bytes of stat information for each of two files, four bytes of flags, the ids
/// of both files, a name with a NUL byte after it, and the amount of directories. The last byte is always NUL.
#[verifier::rlimit(60)]
pub proof fn law_cache_header_is_found_in_data(data: Seq<u8>, kind: Kind, limit: Option<usize>)
    ensures
        cache_parsed(data, kind, limit) matches Some(cache) ==> {
            let hash_len = if kind is Sha1 {
                20int
            } else {
                32int
            };
            let len_bytes = var_int_bytes(cache.identifier.len());
            let count_bytes = var_int_bytes(cache.directories.len());
            let start = len_bytes.len() + cache.identifier.len() as int;
            let name = cache.exclude_filename_per_dir;
            let name_start = start + 76 + 2 * hash_len;
            let end = name_start + name.len() + 1;
            &&& data.last() == 0
            &&& end + count_bytes.len() <= data.len()
            &&& data.take(len_bytes.len() as int) == len_bytes
            &&& data.subrange(len_bytes.len() as int, start) == cache.identifier
            &&& is_file_at(cache.info_exclude, data, start, start + 76, hash_len)
            &&& is_file_at(cache.excludes_file, data, start + 36, start + 76 + hash_len, hash_len)
            &&& cache.dir_flags == u32_be_value(data.subrange(start + 72, start + 76))
            &&& data.subrange(name_start, name_start + name.len()) == name
            &&& data[name_start + name.len()] == 0
            &&& !name.contains(0)
            &&& data.subrange(end, end + count_bytes.len()) == count_bytes
        },
{
    if let Some(cache) = cache_parsed(data, kind, limit) {
        let hash_len = digest_len(kind);
        let (header, rest) = checked_header_parsed(data, kind)->0;
        lemma_header_is_found_in_data(data, hash_len);
        lemma_directories_are_announced(data, kind, limit);
        assert(cache == assembled(header, cache.directories));
        let start = var_int_bytes(cache.identifier.len()).len() + cache.identifier.len() as int;
        lemma_file_is_found(data, start, start + 76, hash_len);
        lemma_file_is_found(data, start + 36, start + 76 + hash_len, hash_len);
        assert(is_file_at(cache.info_exclude, data, start, start + 76, hash_len));
        assert(is_file_at(cache.excludes_file, data, start + 36, start + 76 + hash_len, hash_len));
    }
}

/// Directories follow the header one after another, and then their attributes. Nothing follows if there are none.
pub proof fn law_cache_directories_are_found_in_data(data: Seq<u8>, kind: Kind, limit: Option<usize>)
    ensures
        cache_parsed(data, kind, limit) matches Some(cache) ==> {
            let hash_len = if kind is Sha1 {
                20int
            } else {
                32int
            };
            let end = var_int_bytes(cache.identifier.len()).len() + cache.identifier.len() + 76 + 2 * hash_len
                + cache.exclude_filename_per_dir.len() + 1 + var_int_bytes(cache.directories.len()).len();
            if cache.directories.len() == 0 {
                data.len() == end
            } else {
                exists|attributes: Seq<u8>|
                    data.skip(end) == #[trigger] (blocks_bytes(cache.directories) + attributes) && attributes_parsed(
                        plain_directories(cache.directories),
                        attributes,
                        hash_len,
                    ) == Some(cache.directories)
            }
        },
{
    if let Some(cache) = cache_parsed(data, kind, limit) {
        let hash_len = digest_len(kind);
        let (header, rest) = checked_header_parsed(data, kind)->0;
        lemma_header_is_found_in_data(data, hash_len);
        lemma_directories_are_announced(data, kind, limit);
        if header.num_directories != 0 {
            let (parsed, attributes) = directory_parsed(rest, 0, limit)->0;
            law_directories_are_found_in_data(rest, 0, limit);
            lemma_directory_is_plain(rest, 0, limit);
            let directories = cache.directories;
            assert(attributes_parsed(parsed, attributes, hash_len) == Some(directories));
            assert forall|i: int| 0 <= i < parsed.len() implies parsed[i] == plain_directories(directories)[i] by {
                assert(is_plain(parsed[i]));
            }
            assert(parsed =~= plain_directories(directories));
            lemma_blocks_without_attributes(directories);
            assert(rest == blocks_bytes(directories) + attributes);
        }
    }
}

/// A file is found where its stat information and its id are.
proof fn lemma_file_is_found(data: Seq<u8>, stat_start: int, id_start: int, hash_len: int)
    requires
        0 <= stat_start,
        stat_start + 36 <= data.len(),
        0 <= id_start,
        0 <= hash_len,
        id_start + hash_len <= data.len(),
    ensures
        is_file_at(
            present_file(
                stat_value(data.subrange(stat_start, stat_start + 36)),
                data.subrange(id_start, id_start + hash_len),
            ),
            data,
            stat_start,
            id_start,
            hash_len,
        ),
{
    let id = data.subrange(id_start, id_start + hash_len);
    if is_zero(id) {
        assert forall|i: int| id_start <= i < id_start + hash_len implies #[trigger] data[i] == 0 by {
            assert(id[i - id_start] == data[i]);
        }
    } else {
        let i = choose|i: int| 0 <= i < id.len() && id[i] != 0;
        assert(id[i] != 0);
    }
}

/// All that precedes the directories is written one after another: the length of the identifier, the identifier, stat
/// information for each of two files, the flags, the ids of both files, a name with a NUL byte after it, and the amount
/// of directories.
#[verifier::rlimit(40)]
pub proof fn law_header_is_written_in_order(cache: UntrackedCacheView, kind: Kind)
    ensures
        ({
            let bytes = header_bytes(cache, kind);
            let len_bytes = var_int_bytes(cache.identifier.len());
            let count_bytes = var_int_bytes(cache.directories.len());
            let first_id = optional_id_bytes(file_id(cache.info_exclude), kind);
            let second_id = optional_id_bytes(file_id(cache.excludes_file), kind);
            let name = cache.exclude_filename_per_dir;
            let prefix = len_bytes.len() as int;
            let start = prefix + cache.identifier.len();
            let second_start = start + 76 + first_id.len();
            let name_start = second_start + second_id.len();
            let end = name_start + name.len() + 1;
            &&& bytes.len() == end + count_bytes.len()
            &&& bytes.subrange(0, prefix) == len_bytes
            &&& bytes.subrange(prefix, start) == cache.identifier
            &&& bytes.subrange(start, start + 36) == optional_stat_bytes(file_stat(cache.info_exclude))
            &&& bytes.subrange(start + 36, start + 72) == optional_stat_bytes(file_stat(cache.excludes_file))
            &&& bytes.subrange(start + 72, start + 76) == u32_be_bytes(cache.dir_flags)
            &&& bytes.subrange(start + 76, second_start) == first_id
            &&& bytes.subrange(second_start, name_start) == second_id
            &&& bytes.subrange(name_start, name_start + name.len()) == name
            &&& bytes[name_start + name.len()] == 0
            &&& bytes.subrange(end, end + count_bytes.len()) == count_bytes
        }),
{
    let len_bytes = var_int_bytes(cache.identifier.len());
    let count_bytes = var_int_bytes(cache.directories.len());
    let first_stat = optional_stat_bytes(file_stat(cache.info_exclude));
    let second_stat = optional_stat_bytes(file_stat(cache.excludes_file));
    let flags = u32_be_bytes(cache.dir_flags);
    let first_id = optional_id_bytes(file_id(cache.info_exclude), kind);
    let second_id = optional_id_bytes(file_id(cache.excludes_file), kind);
    let name = cache.exclude_filename_per_dir;
    assert(first_stat.len() == 36 && second_stat.len() == 36 && flags.len() == 4);
    let front = len_bytes + cache.identifier + first_stat + second_stat;
    let middle = front + flags + first_id + second_id;
    let bytes = header_bytes(cache, kind);
    let start = front.len() as int;
    let end = middle.len() as int;
    assert(bytes == middle + name.push(0) + count_bytes);
    lemma_four_parts(len_bytes, cache.identifier, first_stat, second_stat);
    lemma_parts_behind(front, flags, first_id, second_id);
    lemma_parts_behind(middle, name.push(0), count_bytes, Seq::empty());
    assert(bytes + Seq::<u8>::empty() =~= bytes);
    let prefix = len_bytes.len() as int;
    let identifier_end = prefix + cache.identifier.len();
    lemma_part_remains(front, flags + first_id + second_id, 0, prefix);
    lemma_part_remains(front, flags + first_id + second_id, prefix, identifier_end);
    lemma_part_remains(front, flags + first_id + second_id, identifier_end, identifier_end + 36);
    lemma_part_remains(front, flags + first_id + second_id, identifier_end + 36, start);
    assert(middle == front + (flags + first_id + second_id)) by {
        lemma_appended(front, flags, first_id);
        lemma_appended(front, flags + first_id, second_id);
    }
    assert(bytes == middle + (name.push(0) + count_bytes)) by {
        lemma_appended(middle, name.push(0), count_bytes);
    }
    lemma_part_remains(middle, name.push(0) + count_bytes, 0, prefix);
    lemma_part_remains(middle, name.push(0) + count_bytes, prefix, identifier_end);
    lemma_part_remains(middle, name.push(0) + count_bytes, identifier_end, identifier_end + 36);
    lemma_part_remains(middle, name.push(0) + count_bytes, identifier_end + 36, start);
    lemma_part_remains(middle, name.push(0) + count_bytes, start, start + 4);
    lemma_part_remains(middle, name.push(0) + count_bytes, start + 4, start + 4 + first_id.len());
    lemma_part_remains(middle, name.push(0) + count_bytes, start + 4 + first_id.len(), end);
    let terminated = bytes.subrange(end, end + name.len() + 1);
    assert(terminated == name.push(0));
    assert(terminated.subrange(0, name.len() as int) =~= name);
    assert(terminated.subrange(0, name.len() as int) =~= bytes.subrange(end, end + name.len()));
    assert(terminated[name.len() as int] == bytes[end + name.len()]);
}

/// Four parts are found one after another.
proof fn lemma_four_parts(first: Seq<u8>, second: Seq<u8>, third: Seq<u8>, fourth: Seq<u8>)
    ensures
        ({
            let bytes = first + second + third + fourth;
            let one = first.len() as int;
            let two = one + second.len();
            let three = two + third.len();
            &&& bytes.len() == three + fourth.len()
            &&& bytes.subrange(0, one) == first
            &&& bytes.subrange(one, two) == second
            &&& bytes.subrange(two, three) == third
            &&& bytes.subrange(three, three + fourth.len()) == fourth
        }),
{
    let bytes = first + second + third + fourth;
    let one = first.len() as int;
    let two = one + second.len();
    let three = two + third.len();
    assert(bytes.subrange(0, one) =~= first);
    assert(bytes.subrange(one, two) =~= second);
    assert(bytes.subrange(two, three) =~= third);
    assert(bytes.subrange(three, three + fourth.len()) =~= fourth);
}

/// Three parts are found one after another behind `front`.
proof fn lemma_parts_behind(front: Seq<u8>, first: Seq<u8>, second: Seq<u8>, third: Seq<u8>)
    ensures
        ({
            let bytes = front + first + second + third;
            let start = front.len() as int;
            let one = start + first.len();
            let two = one + second.len();
            &&& bytes.len() == two + third.len()
            &&& bytes.subrange(start, one) == first
            &&& bytes.subrange(one, two) == second
            &&& bytes.subrange(two, two + third.len()) == third
        }),
{
    lemma_four_parts(front, first, second, third);
}

/// What is there remains where it is when something is appended.
proof fn lemma_part_remains(front: Seq<u8>, part: Seq<u8>, start: int, end: int)
    requires
        0 <= start <= end <= front.len(),
    ensures
        (front + part).subrange(start, end) == front.subrange(start, end),
{
    assert((front + part).subrange(start, end) =~= front.subrange(start, end));
}

/// The bytes of `header`, where both files have stat information whether they are present or not.
pub open spec fn full_header_bytes(header: Header) -> Seq<u8> {
    var_int_bytes(header.identifier.len()) + header.identifier + stat_bytes(header.info_exclude_stat) + stat_bytes(
        header.excludes_file_stat,
    ) + u32_be_bytes(header.dir_flags) + header.info_exclude_id + header.excludes_file_id
        + header.exclude_filename_per_dir + seq![0u8] + var_int_bytes(header.num_directories as nat)
}

/// Whatever has the parts of a header in the right order is read as such.
#[verifier::rlimit(40)]
proof fn lemma_full_header_read(header: Header, hash_len: int, rest: Seq<u8>)
    requires
        header.identifier.len() <= u64::MAX,
        header.info_exclude_id.len() == hash_len,
        header.excludes_file_id.len() == hash_len,
        !header.exclude_filename_per_dir.contains(0),
    ensures
        header_parsed(full_header_bytes(header) + rest, hash_len) == Some((header, rest)),
{
    let name = header.exclude_filename_per_dir;
    let count = var_int_bytes(header.num_directories as nat);
    let seventh = count + rest;
    let sixth = name.push(0) + seventh;
    let fifth = header.excludes_file_id + sixth;
    let fourth = header.info_exclude_id + fifth;
    let third = u32_be_bytes(header.dir_flags) + fourth;
    let second = stat_bytes(header.excludes_file_stat) + third;
    let first = stat_bytes(header.info_exclude_stat) + second;
    let start = header.identifier + first;
    let data = full_header_bytes(header) + rest;
    assert(data == var_int_bytes(header.identifier.len()) + start) by {
        let len_bytes = var_int_bytes(header.identifier.len());
        lemma_appended(len_bytes, header.identifier, first);
        let front = len_bytes + header.identifier;
        lemma_appended(front, stat_bytes(header.info_exclude_stat), second);
        let front = front + stat_bytes(header.info_exclude_stat);
        lemma_appended(front, stat_bytes(header.excludes_file_stat), third);
        let front = front + stat_bytes(header.excludes_file_stat);
        lemma_appended(front, u32_be_bytes(header.dir_flags), fourth);
        let front = front + u32_be_bytes(header.dir_flags);
        lemma_appended(front, header.info_exclude_id, fifth);
        let front = front + header.info_exclude_id;
        lemma_appended(front, header.excludes_file_id, sixth);
        let front = front + header.excludes_file_id;
        lemma_appended(front, name.push(0), seventh);
        assert(name.push(0) =~= name + seq![0u8]);
        lemma_appended(front, name, seq![0u8]);
        let front = front + name + seq![0u8];
        lemma_appended(front, count, rest);
    }
    assert(identifier_parsed(data) == Some((header.identifier, first))) by {
        law_var_int_read_gives_back_written(header.identifier.len() as u64, start);
        lemma_split_bytes_append(header.identifier, first);
    }
    assert(stat_parsed(first) == Some((header.info_exclude_stat, second))) by {
        law_stat_read_gives_back_written(header.info_exclude_stat, second);
    }
    assert(stat_parsed(second) == Some((header.excludes_file_stat, third))) by {
        law_stat_read_gives_back_written(header.excludes_file_stat, third);
    }
    assert(u32_parsed(third) == Some((header.dir_flags, fourth))) by {
        law_u32_read_gives_back_written(header.dir_flags, fourth);
    }
    assert(split_bytes(fourth, hash_len) == Some((header.info_exclude_id, fifth))) by {
        lemma_split_bytes_append(header.info_exclude_id, fifth);
    }
    assert(split_bytes(fifth, hash_len) == Some((header.excludes_file_id, sixth))) by {
        lemma_split_bytes_append(header.excludes_file_id, sixth);
    }
    assert(split_at_byte(sixth, 0) == Some((name, seventh))) by {
        law_terminated_string_is_found(name, 0, seventh);
    }
    assert(var_int_parsed(seventh) == Some((header.num_directories, rest))) by {
        law_var_int_read_gives_back_written(header.num_directories, rest);
    }
}

/// A cache without directories is accepted, whatever its header holds, if nothing follows it.
pub proof fn law_cache_without_directories_is_accepted(header: Header, kind: Kind, limit: Option<usize>)
    requires
        header.identifier.len() <= u64::MAX,
        header.info_exclude_id.len() == digest_len(kind),
        header.excludes_file_id.len() == digest_len(kind),
        !header.exclude_filename_per_dir.contains(0),
        header.num_directories == 0,
    ensures
        cache_parsed(full_header_bytes(header), kind, limit) matches Some(cache) && cache.directories.len() == 0,
{
    let data = full_header_bytes(header);
    assert(data + Seq::empty() =~= data);
    lemma_full_header_read(header, digest_len(kind), Seq::empty());
    assert(var_int_bytes(0).last() == 0);
    assert(data.last() == var_int_bytes(0).last());
}

/// A cache with directories is accepted, whatever its header holds and whatever bitmaps it has, if the directories form
/// a tree, names are free of the byte that terminates them, untracked entries are no more than there are pairs of bytes
/// after the name of their directory, bitmaps are well-formed with at most as many bits as there are directories, and
/// there are as many values as bits that are set, and a NUL byte.
#[verifier::rlimit(60)]
pub proof fn law_cache_is_accepted(
    header: Header,
    directories: Seq<DirectoryView>,
    valid: Bitmap,
    check_only: Bitmap,
    hash_valid: Bitmap,
    values: Seq<u8>,
    kind: Kind,
)
    requires
        header.identifier.len() <= u64::MAX,
        header.info_exclude_id.len() == digest_len(kind),
        header.excludes_file_id.len() == digest_len(kind),
        !header.exclude_filename_per_dir.contains(0),
        header.num_directories == directories.len(),
        0 < directories.len() <= usize::MAX,
        is_tree(directories),
        forall|i: int|
            0 <= i < directories.len() ==> {
                &&& is_terminable(#[trigger] directories[i])
                &&& directories[i].untracked_entries.len() <= u64::MAX
                &&& 2 * directories[i].untracked_entries.len() <= strings_bytes(directories[i].untracked_entries).len()
                    + blocks_bytes(directories.subrange(i + 1, directories.len() as int)).len() + (valid.encoded()
                    + check_only.encoded() + hash_valid.encoded() + values).len()
            },
        valid.is_encodable() && valid.is_well_formed() && valid.num_bits <= directories.len(),
        check_only.is_encodable() && check_only.is_well_formed() && check_only.num_bits <= directories.len(),
        hash_valid.is_encodable() && hash_valid.is_well_formed() && hash_valid.num_bits <= directories.len(),
        values.len() == 36 * valid.set_bits().len() + digest_len(kind) * hash_valid.set_bits().len() + 1,
        values.last() == 0,
    ensures
        cache_parsed(
            full_header_bytes(header) + blocks_bytes(directories) + (valid.encoded() + check_only.encoded()
                + hash_valid.encoded() + values),
            kind,
            None,
        ) matches Some(cache) && attributes_parsed(
            plain_directories(directories),
            valid.encoded() + check_only.encoded() + hash_valid.encoded() + values,
            digest_len(kind),
        ) == Some(cache.directories),
{
    let len = directories.len() as int;
    let attributes = valid.encoded() + check_only.encoded() + hash_valid.encoded() + values;
    assert(0 <= digest_len(kind) * hash_valid.set_bits().len()) by (nonlinear_arith)
        requires
            0 <= digest_len(kind),
    ;
    assert(values.len() > 0);
    assert(attributes.last() == values.last());
    assert forall|i: int| 0 <= i < len implies is_terminable(#[trigger] directories[i])
        && directories[i].untracked_entries.len() <= u64::MAX && has_room(directories, i, len, attributes.len()) by {}
    law_attributes_are_accepted(
        plain_directories(directories),
        valid,
        check_only,
        hash_valid,
        values,
        digest_len(kind),
    );
    lemma_parts_are_accepted(header, directories, attributes, kind);
}

/// A cache is accepted if its parts are.
#[verifier::rlimit(40)]
proof fn lemma_parts_are_accepted(
    header: Header,
    directories: Seq<DirectoryView>,
    attributes: Seq<u8>,
    kind: Kind,
)
    requires
        header.identifier.len() <= u64::MAX,
        header.info_exclude_id.len() == digest_len(kind),
        header.excludes_file_id.len() == digest_len(kind),
        !header.exclude_filename_per_dir.contains(0),
        header.num_directories == directories.len(),
        0 < directories.len() <= usize::MAX,
        is_tree(directories),
        can_be_read(directories, 0, directories.len() as int, attributes.len()),
        attributes.len() > 0,
        attributes.last() == 0,
        attributes_parsed(plain_directories(directories), attributes, digest_len(kind)) is Some,
    ensures
        cache_parsed(full_header_bytes(header) + blocks_bytes(directories) + attributes, kind, None) == Some(
            assembled(
                header,
                attributes_parsed(plain_directories(directories), attributes, digest_len(kind))->0,
            ),
        ),
{
    let len = directories.len() as int;
    let front = full_header_bytes(header);
    let blocks = blocks_bytes(directories);
    let rest = blocks + attributes;
    let data = front + blocks + attributes;
    lemma_appended(front, blocks, attributes);
    assert(data == front + rest);
    assert(data.last() == 0);
    assert(checked_header_parsed(data, kind) == Some((header, rest))) by {
        lemma_full_header_read(header, digest_len(kind), rest);
    }
    lemma_blocks_len(directories);
    assert(may_hold_directories(header.num_directories, rest, None));
    assert(directory_parsed(rest, 0, None) == Some((plain_directories(directories), attributes))) by {
        assert(directories.subrange(0, len) =~= directories);
        law_directory_block_read_gives_back_written(directories, 0, len, attributes);
    }
}

} // verus!
