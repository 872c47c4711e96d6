//! Reading an untracked cache gives back what was written.

use vstd::prelude::*;

use crate::bitmap::law_bitmap_read_gives_back_written;
use crate::bitmap::law_true_positions_are_those_of_true_bits;
use crate::bitmap::lemma_literal_bitmap_is_encodable;
use crate::bitmap::lemma_position_of_bit;
use crate::bitmap::literal_bitmap;
use crate::bitmap::true_positions;
use crate::decode::law_stat_read_gives_back_written;
use crate::decode::stat_parsed;
use crate::entry::law_stat_bytes_give_back_stat;
use crate::entry::stat_bytes;
use crate::entry::zero_stat;
use crate::entry::STAT_LEN;
use crate::extension::untracked_cache::encoding::attributes_bytes;
use crate::extension::untracked_cache::encoding::bitmaps_bytes;
use crate::extension::untracked_cache::encoding::block_head_bytes;
use crate::extension::untracked_cache::encoding::blocks_bytes;
use crate::extension::untracked_cache::encoding::cache_bytes;
use crate::extension::untracked_cache::encoding::check_only_bits;
use crate::extension::untracked_cache::encoding::file_id;
use crate::extension::untracked_cache::encoding::hash_valid_bits;
use crate::extension::untracked_cache::encoding::header_bytes;
use crate::extension::untracked_cache::encoding::law_tree_is_written_in_order;
use crate::extension::untracked_cache::encoding::lemma_blocks_bytes_one;
use crate::extension::untracked_cache::encoding::lemma_blocks_bytes_split;
use crate::extension::untracked_cache::encoding::oid_values;
use crate::extension::untracked_cache::encoding::optional_id_bytes;
use crate::extension::untracked_cache::encoding::present_bytes;
use crate::extension::untracked_cache::encoding::stat_values;
use crate::extension::untracked_cache::encoding::strings_bytes;
use crate::extension::untracked_cache::encoding::valid_bits;
use crate::extension::untracked_cache::encoding::walks_are_known;
use crate::extension::untracked_cache::format::assembled;
use crate::extension::untracked_cache::format::attributed;
use crate::extension::untracked_cache::format::attributes_parsed;
use crate::extension::untracked_cache::format::bitmaps_parsed;
use crate::extension::untracked_cache::format::block_head_parsed;
use crate::extension::untracked_cache::format::cache_parsed;
use crate::extension::untracked_cache::format::checked_header_parsed;
use crate::extension::untracked_cache::format::directory_parsed;
use crate::extension::untracked_cache::format::header_parsed;
use crate::extension::untracked_cache::format::identifier_parsed;
use crate::extension::untracked_cache::format::lemma_value_at;
use crate::extension::untracked_cache::format::plain_directory;
use crate::extension::untracked_cache::format::strings_parsed;
use crate::extension::untracked_cache::format::sub_directories_parsed;
use crate::extension::untracked_cache::format::value_of;
use crate::extension::untracked_cache::format::Bitmaps;
use crate::extension::untracked_cache::format::BlockHead;
use crate::extension::untracked_cache::format::Header;
use crate::extension::untracked_cache::structure::is_tree;
use crate::extension::untracked_cache::structure::lemma_siblings_count;
use crate::extension::untracked_cache::structure::siblings_end;
use crate::extension::untracked_cache::structure::subtree_end;
use crate::extension::untracked_cache::DirectoryView;
use crate::extension::untracked_cache::OidStatView;
use crate::extension::untracked_cache::UntrackedCacheView;
use crate::hash::digest_len;
use crate::hash::is_zero;
use crate::hash::null_digest;
use crate::hash::Kind;
use crate::util::law_terminated_string_is_found;
use crate::util::law_u32_read_gives_back_written;
use crate::util::law_var_int_read_gives_back_written;
use crate::util::lemma_split_bytes_append;
use crate::util::split_at_byte;
use crate::util::split_bytes;
use crate::util::u32_be_bytes;
use crate::util::u32_parsed;
use crate::util::var_int_bytes;
use crate::util::var_int_parsed;

verus! {

/// Whether all `strings` can be told from their terminators.
pub open spec fn are_terminable(strings: Seq<Seq<u8>>) -> bool {
    forall|i: int| 0 <= i < strings.len() ==> !(#[trigger] strings[i]).contains(0)
}

/// Strings take up at least one byte each.
proof fn lemma_strings_len(strings: Seq<Seq<u8>>)
    ensures
        strings_bytes(strings).len() >= strings.len(),
    decreases strings.len(),
{
    if strings.len() > 0 {
        lemma_strings_len(strings.drop_last());
    }
}

/// Reading strings gives back what was written.
pub proof fn lemma_strings_read(strings: Seq<Seq<u8>>, rest: Seq<u8>)
    requires
        are_terminable(strings),
    ensures
        strings_parsed(strings_bytes(strings) + rest, strings.len()) == Some((strings, rest)),
    decreases strings.len(),
{
    if strings.len() == 0 {
        assert(strings_bytes(strings) + rest =~= rest);
        assert(strings =~= Seq::empty());
    } else {
        let before = strings.drop_last();
        let last = strings.last();
        let tail = last.push(0) + rest;
        lemma_strings_read(before, tail);
        assert(strings_bytes(strings) + rest =~= strings_bytes(before) + tail);
        assert(!strings[strings.len() - 1].contains(0));
        law_terminated_string_is_found(last, 0, rest);
        assert(before.push(last) =~= strings);
    }
}

/// Whether the strings of `directory` can be told from their terminators.
pub open spec fn is_terminable(directory: DirectoryView) -> bool {
    !directory.name.contains(0) && are_terminable(directory.untracked_entries)
}

/// What a block says of `directory`.
pub open spec fn head_of(directory: DirectoryView) -> BlockHead {
    BlockHead {
        name: directory.name,
        untracked_entries: directory.untracked_entries,
        num_sub_directories: directory.sub_directories.len(),
    }
}

/// Reading a block head gives back what was written.
pub proof fn lemma_block_head_read(directory: DirectoryView, rest: Seq<u8>)
    requires
        is_terminable(directory),
        directory.untracked_entries.len() <= u64::MAX,
        directory.sub_directories.len() <= u64::MAX,
        2 * directory.untracked_entries.len() <= strings_bytes(directory.untracked_entries).len() + rest.len(),
        2 * directory.sub_directories.len() <= strings_bytes(directory.untracked_entries).len() + rest.len(),
    ensures
        block_head_parsed(block_head_bytes(directory) + rest, None) == Some((head_of(directory), rest)),
{
    let num_untracked = directory.untracked_entries.len() as u64;
    let num_dirs = directory.sub_directories.len() as u64;
    let third = strings_bytes(directory.untracked_entries) + rest;
    let second = directory.name.push(0) + third;
    let first = var_int_bytes(num_dirs as nat) + second;
    let data = block_head_bytes(directory) + rest;
    assert(data =~= var_int_bytes(num_untracked as nat) + first);
    law_var_int_read_gives_back_written(num_untracked, first);
    law_var_int_read_gives_back_written(num_dirs, second);
    law_terminated_string_is_found(directory.name, 0, third);
    lemma_strings_read(directory.untracked_entries, rest);
    assert(var_int_parsed(data) == Some((num_untracked, first)));
    assert(var_int_parsed(first) == Some((num_dirs, second)));
    assert(split_at_byte(second, 0) == Some((directory.name, third)));
}

/// Each directory takes up at least three bytes.
pub proof fn lemma_blocks_len(directories: Seq<DirectoryView>)
    ensures
        blocks_bytes(directories).len() >= 3 * directories.len(),
    decreases directories.len(),
{
    if directories.len() > 0 {
        lemma_blocks_len(directories.drop_last());
    }
}

/// The `directories` without the attributes that bitmaps add.
pub open spec fn plain_directories(directories: Seq<DirectoryView>) -> Seq<DirectoryView> {
    directories.map_values(
        |directory: DirectoryView| plain_directory(head_of(directory), directory.sub_directories),
    )
}

/// Whether the untracked entries of the directory at `index` are no more than there are pairs of bytes after its name,
/// if the directories up to `end` follow, and another `rest_len` bytes.
pub open spec fn has_room(directories: Seq<DirectoryView>, index: int, end: int, rest_len: nat) -> bool {
    let untracked_entries = directories[index].untracked_entries;
    2 * untracked_entries.len() <= strings_bytes(untracked_entries).len() + blocks_bytes(
        directories.subrange(index + 1, end),
    ).len() + rest_len
}

/// Whether the directories from `start` to before `end` can be read if `rest_len` bytes follow them.
pub open spec fn can_be_read(directories: Seq<DirectoryView>, start: int, end: int, rest_len: nat) -> bool {
    &&& 0 <= start <= end <= directories.len()
    &&& directories.len() <= usize::MAX
    &&& forall|i: int|
        start <= i < end ==> {
            &&& is_terminable(#[trigger] directories[i])
            &&& directories[i].untracked_entries.len() <= u64::MAX
            &&& has_room(directories, i, end, rest_len)
        }
}

/// What can be read can be read in part, as all others count as bytes to follow.
proof fn lemma_part_can_be_read(
    directories: Seq<DirectoryView>,
    start: int,
    end: int,
    from: int,
    to: int,
    rest_len: nat,
)
    requires
        can_be_read(directories, start, end, rest_len),
        start <= from <= to <= end,
    ensures
        can_be_read(directories, from, to, blocks_bytes(directories.subrange(to, end)).len() + rest_len),
{
    assert forall|i: int| from <= i < to implies is_terminable(#[trigger] directories[i])
        && directories[i].untracked_entries.len() <= u64::MAX && has_room(
        directories,
        i,
        to,
        blocks_bytes(directories.subrange(to, end)).len() + rest_len,
    ) by {
        assert(has_room(directories, i, end, rest_len));
        lemma_blocks_bytes_split(directories, i + 1, to, end);
    }
}

/// Reading the block of a directory gives back the directory and all below it, without the attributes that bitmaps add,
/// and leaves what follows it.
#[verifier::rlimit(40)]
pub proof fn law_directory_block_read_gives_back_written(
    directories: Seq<DirectoryView>,
    index: int,
    end: int,
    rest: Seq<u8>,
)
    requires
        subtree_end(directories, index) == Some(end),
        can_be_read(directories, index, end, rest.len()),
    ensures
        directory_parsed(blocks_bytes(directories.subrange(index, end)) + rest, index as nat, None) == Some(
            (plain_directories(directories.subrange(index, end)), rest),
        ),
    decreases directories.len() - index, 0nat,
{
    let directory = directories[index];
    let below = directories.subrange(index + 1, end);
    let tail = blocks_bytes(below) + rest;
    let data = blocks_bytes(directories.subrange(index, end)) + rest;
    lemma_siblings_count(directories, directory.sub_directories, index + 1);
    lemma_blocks_bytes_split(directories, index, index + 1, end);
    lemma_blocks_bytes_one(directories, index);
    assert(data =~= block_head_bytes(directory) + tail);
    lemma_blocks_len(below);
    assert(has_room(directories, index, end, rest.len()));
    assert(is_terminable(directory));
    lemma_block_head_read(directory, tail);
    lemma_part_can_be_read(directories, index, end, index + 1, end, rest.len());
    assert(directories.subrange(end, end) =~= Seq::empty());
    lemma_siblings_read(directories, directory.sub_directories, index + 1, end, rest);
    let parsed = seq![plain_directory(head_of(directory), directory.sub_directories)] + plain_directories(below);
    assert(parsed =~= plain_directories(directories.subrange(index, end)));
}

/// Several blocks are read as the first of them, and the others.
proof fn lemma_siblings_parsed_step(
    data: Seq<u8>,
    index: nat,
    count: nat,
    first: Seq<DirectoryView>,
    tail: Seq<u8>,
)
    requires
        count > 0,
        tail.len() < data.len(),
        directory_parsed(data, index, None) == Some((first, tail)),
    ensures
        sub_directories_parsed(data, index, count, None) == match sub_directories_parsed(
            tail,
            index + first.len(),
            (count - 1) as nat,
            None,
        ) {
            Some((indices, directories, rest)) => Some((seq![index as usize] + indices, first + directories, rest)),
            None => None,
        },
{
}

/// Several directories lose their attributes independently of each other.
proof fn lemma_plain_directories_split(directories: Seq<DirectoryView>, start: int, middle: int, end: int)
    requires
        0 <= start <= middle <= end <= directories.len(),
    ensures
        plain_directories(directories.subrange(start, middle)) + plain_directories(directories.subrange(middle, end))
            == plain_directories(directories.subrange(start, end)),
{
    assert(plain_directories(directories.subrange(start, middle)) + plain_directories(
        directories.subrange(middle, end),
    ) =~= plain_directories(directories.subrange(start, end)));
}

/// Reading the blocks of several directories gives back the directories and all below them.
#[verifier::rlimit(40)]
proof fn lemma_siblings_read(
    directories: Seq<DirectoryView>,
    children: Seq<usize>,
    next: int,
    end: int,
    rest: Seq<u8>,
)
    requires
        0 <= next <= directories.len(),
        siblings_end(directories, children, next) == Some(end),
        can_be_read(directories, next, end, rest.len()),
    ensures
        sub_directories_parsed(
            blocks_bytes(directories.subrange(next, end)) + rest,
            next as nat,
            children.len(),
            None,
        ) == Some((children, plain_directories(directories.subrange(next, end)), rest)),
    decreases directories.len() - next, children.len() + 1,
{
    let all = directories.subrange(next, end);
    let data = blocks_bytes(all) + rest;
    if children.len() == 0 {
        assert(all =~= Seq::empty());
        assert(data =~= rest);
        assert(children =~= Seq::empty());
        assert(plain_directories(all) =~= Seq::empty());
    } else {
        let first_end = subtree_end(directories, next)->0;
        let first = directories.subrange(next, first_end);
        let others = directories.subrange(first_end, end);
        let tail = blocks_bytes(others) + rest;
        lemma_siblings_count(directories, children.drop_first(), first_end);
        lemma_blocks_bytes_split(directories, next, first_end, end);
        lemma_part_can_be_read(directories, next, end, next, first_end, rest.len());
        lemma_part_can_be_read(directories, next, end, first_end, end, rest.len());
        assert(directories.subrange(end, end) =~= Seq::empty());
        assert(data =~= blocks_bytes(first) + tail);
        law_directory_block_read_gives_back_written(directories, next, first_end, tail);
        lemma_siblings_read(directories, children.drop_first(), first_end, end, rest);
        lemma_blocks_len(first);
        assert(seq![next as usize] + children.drop_first() =~= children);
        lemma_plain_directories_split(directories, next, first_end, end);
        assert(tail.len() < data.len());
        assert(next + plain_directories(first).len() == first_end);
        lemma_siblings_parsed_step(data, next as nat, children.len(), plain_directories(first), tail);
    }
}

/// Which of `values` are present.
pub open spec fn presence(values: Seq<Option<Seq<u8>>>) -> Seq<bool> {
    values.map_values(|value: Option<Seq<u8>>| value is Some)
}

/// Values of the same length are found at the position that their owner has among all owners of a value.
proof fn lemma_present_values(values: Seq<Option<Seq<u8>>>, len: int)
    requires
        values.len() <= usize::MAX,
        len >= 0,
        forall|i: int| 0 <= i < values.len() ==> (#[trigger] values[i] matches Some(bytes) ==> bytes.len() == len),
    ensures
        present_bytes(values).len() == len * true_positions(presence(values)).len(),
        forall|j: int|
            0 <= j < true_positions(presence(values)).len() ==> values[#[trigger] true_positions(
                presence(values),
            )[j] as int] == Some(present_bytes(values).subrange(len * j, len * j + len)),
    decreases values.len(),
{
    if values.len() > 0 {
        let before = values.drop_last();
        lemma_present_values(before, len);
        assert(presence(values).drop_last() =~= presence(before));
        assert(presence(values).last() == (values.last() is Some));
        law_true_positions_are_those_of_true_bits(presence(before));
        let positions = true_positions(presence(values));
        let positions_before = true_positions(presence(before));
        let bytes = present_bytes(values);
        let bytes_before = present_bytes(before);
        if let Some(last) = values.last() {
            assert(values[values.len() - 1] is Some);
            assert(len * (positions_before.len() + 1) == len * positions_before.len() + len) by (nonlinear_arith);
        }
        assert forall|j: int| 0 <= j < positions.len() implies values[#[trigger] positions[j] as int] == Some(
            bytes.subrange(len * j, len * j + len),
        ) by {
            if j < positions_before.len() {
                assert(positions[j] == positions_before[j]);
                assert(values[positions[j] as int] == before[positions_before[j] as int]);
                assert(0 <= len * j && len * j + len <= len * positions_before.len()) by (nonlinear_arith)
                    requires
                        0 <= j < positions_before.len(),
                        0 <= len,
                ;
                assert(bytes.subrange(len * j, len * j + len) =~= bytes_before.subrange(len * j, len * j + len));
            } else {
                assert(positions[j] == values.len() - 1);
                assert(bytes.subrange(len * j, len * j + len) =~= values.last()->0);
            }
        }
    }
}

/// Reading values of the same length gives back what was written.
proof fn lemma_value_read(values: Seq<Option<Seq<u8>>>, len: int, rest: Seq<u8>, index: int)
    requires
        values.len() <= usize::MAX,
        len >= 0,
        forall|i: int| 0 <= i < values.len() ==> (#[trigger] values[i] matches Some(bytes) ==> bytes.len() == len),
        0 <= index < values.len(),
    ensures
        value_of(present_bytes(values) + rest, true_positions(presence(values)), len, index) == values[index],
{
    let positions = true_positions(presence(values));
    let data = present_bytes(values) + rest;
    law_true_positions_are_those_of_true_bits(presence(values));
    lemma_present_values(values, len);
    if values[index] is Some {
        assert(presence(values)[index]);
        let j = choose|j: int| 0 <= j < positions.len() && positions[j] == index as usize;
        lemma_value_at(data, positions, len, j);
        assert(0 <= len * j && len * j + len <= len * positions.len()) by (nonlinear_arith)
            requires
                0 <= j < positions.len(),
                0 <= len,
        ;
        assert(data.subrange(len * j, len * j + len) =~= present_bytes(values).subrange(len * j, len * j + len));
    } else {
        lemma_position_of_bit(presence(values), index);
    }
}

/// Whether the id of the exclude file of `directory` is of `kind`, if there is one.
pub open spec fn has_id_of(directory: DirectoryView, kind: Kind) -> bool {
    directory.exclude_file_oid matches Some(id) ==> id.len() == digest_len(kind)
}

/// The bitmaps that tell which attributes `directories` have.
pub open spec fn bitmaps_of(directories: Seq<DirectoryView>) -> Bitmaps {
    Bitmaps {
        valid: literal_bitmap(valid_bits(directories)),
        check_only: literal_bitmap(check_only_bits(directories)),
        hash_valid: literal_bitmap(hash_valid_bits(directories)),
    }
}

/// Reading three bitmaps gives back what was written.
proof fn lemma_three_bitmaps_read(bitmaps: Bitmaps, rest: Seq<u8>)
    requires
        bitmaps.valid.is_encodable(),
        bitmaps.check_only.is_encodable(),
        bitmaps.hash_valid.is_encodable(),
    ensures
        bitmaps_parsed(
            bitmaps.valid.encoded() + bitmaps.check_only.encoded() + bitmaps.hash_valid.encoded() + rest,
        ) == Some((bitmaps, rest)),
{
    let valid = bitmaps.valid.encoded();
    let check_only = bitmaps.check_only.encoded();
    let hash_valid = bitmaps.hash_valid.encoded();
    lemma_appended(valid + check_only, hash_valid, rest);
    lemma_appended(valid, check_only, hash_valid + rest);
    law_bitmap_read_gives_back_written(bitmaps.valid, check_only + (hash_valid + rest));
    law_bitmap_read_gives_back_written(bitmaps.check_only, hash_valid + rest);
    law_bitmap_read_gives_back_written(bitmaps.hash_valid, rest);
}

/// Reading the bitmaps gives back what was written.
proof fn lemma_bitmaps_read(directories: Seq<DirectoryView>, rest: Seq<u8>)
    requires
        directories.len() <= u32::MAX,
    ensures
        bitmaps_parsed(bitmaps_bytes(directories) + rest) == Some((bitmaps_of(directories), rest)),
        bitmaps_of(directories).valid.num_bits == directories.len(),
        bitmaps_of(directories).check_only.num_bits == directories.len(),
        bitmaps_of(directories).hash_valid.num_bits == directories.len(),
{
    lemma_literal_bitmap_is_encodable(valid_bits(directories));
    lemma_literal_bitmap_is_encodable(check_only_bits(directories));
    lemma_literal_bitmap_is_encodable(hash_valid_bits(directories));
    lemma_three_bitmaps_read(bitmaps_of(directories), rest);
}

/// The bytes of the attributes of `directories`, including the NUL byte after them.
pub open spec fn values_bytes(directories: Seq<DirectoryView>) -> Seq<u8> {
    present_bytes(stat_values(directories)) + present_bytes(oid_values(directories)).push(0)
}

/// The attributes of all directories have the lengths that the format asks for.
proof fn lemma_value_lengths(directories: Seq<DirectoryView>, kind: Kind)
    requires
        forall|i: int| 0 <= i < directories.len() ==> has_id_of(#[trigger] directories[i], kind),
    ensures
        presence(stat_values(directories)) == valid_bits(directories),
        presence(oid_values(directories)) == hash_valid_bits(directories),
        forall|i: int|
            0 <= i < stat_values(directories).len() ==> (#[trigger] stat_values(directories)[i] matches Some(bytes)
                ==> bytes.len() == STAT_LEN),
        forall|i: int|
            0 <= i < oid_values(directories).len() ==> (#[trigger] oid_values(directories)[i] matches Some(bytes)
                ==> bytes.len() == digest_len(kind)),
{
    let stats = stat_values(directories);
    let oids = oid_values(directories);
    assert(presence(stats) =~= valid_bits(directories));
    assert(presence(oids) =~= hash_valid_bits(directories));
    assert forall|i: int| 0 <= i < stats.len() implies (#[trigger] stats[i] matches Some(bytes) ==> bytes.len()
        == STAT_LEN) by {
        if let Some(stat) = directories[i].stat {
            law_stat_bytes_give_back_stat(stat);
        }
    }
    assert forall|i: int| 0 <= i < oids.len() implies (#[trigger] oids[i] matches Some(bytes) ==> bytes.len()
        == digest_len(kind)) by {
        assert(has_id_of(directories[i], kind));
    }
}

/// Reading the attributes of one directory gives back what was written.
#[verifier::rlimit(40)]
proof fn lemma_directory_attributes_read(directories: Seq<DirectoryView>, kind: Kind, index: int)
    requires
        directories.len() <= u32::MAX,
        walks_are_known(directories),
        forall|i: int| 0 <= i < directories.len() ==> has_id_of(#[trigger] directories[i], kind),
        0 <= index < directories.len(),
    ensures
        attributed(
            plain_directories(directories)[index],
            index,
            bitmaps_of(directories),
            values_bytes(directories),
            digest_len(kind),
        ) == directories[index],
{
    let stats = stat_values(directories);
    let oids = oid_values(directories);
    let data = values_bytes(directories);
    let bitmaps = bitmaps_of(directories);
    let stats_len = STAT_LEN * bitmaps.valid.set_bits().len();
    lemma_value_lengths(directories, kind);
    assert(value_of(data, bitmaps.valid.set_bits(), STAT_LEN as int, index) == stats[index]) by {
        lemma_value_read(stats, STAT_LEN as int, present_bytes(oids).push(0), index);
    }
    assert(value_of(
        data.subrange(stats_len, data.len() as int),
        bitmaps.hash_valid.set_bits(),
        digest_len(kind),
        index,
    ) == oids[index]) by {
        lemma_present_values(stats, STAT_LEN as int);
        assert(data.subrange(stats_len, data.len() as int) =~= present_bytes(oids) + seq![0u8]);
        lemma_value_read(oids, digest_len(kind), seq![0u8], index);
    }
    assert(bitmaps.check_only.set_bits().contains(index as usize) == directories[index].check_only) by {
        lemma_position_of_bit(check_only_bits(directories), index);
    }
    if let Some(stat) = directories[index].stat {
        law_stat_bytes_give_back_stat(stat);
    }
}

/// Reading attributes gives back what was written.
#[verifier::rlimit(40)]
proof fn lemma_attributes_read(directories: Seq<DirectoryView>, kind: Kind)
    requires
        directories.len() <= u32::MAX,
        walks_are_known(directories),
        forall|i: int| 0 <= i < directories.len() ==> has_id_of(#[trigger] directories[i], kind),
    ensures
        attributes_parsed(plain_directories(directories), attributes_bytes(directories), digest_len(kind)) == Some(
            directories,
        ),
{
    let plain = plain_directories(directories);
    let bitmaps = bitmaps_of(directories);
    let data = values_bytes(directories);
    assert(attributes_bytes(directories) =~= bitmaps_bytes(directories) + data);
    lemma_bitmaps_read(directories, data);
    lemma_value_lengths(directories, kind);
    lemma_present_values(stat_values(directories), STAT_LEN as int);
    lemma_present_values(oid_values(directories), digest_len(kind));
    let read = Seq::new(plain.len(), |i: int| attributed(plain[i], i, bitmaps, data, digest_len(kind)));
    assert forall|i: int| 0 <= i < directories.len() implies read[i] == directories[i] by {
        lemma_directory_attributes_read(directories, kind, i);
    }
    assert(read =~= directories);
}

/// Whether `file` can be told from one that isn't present, and has an id of `kind`.
pub open spec fn file_is_readable(file: Option<OidStatView>, kind: Kind) -> bool {
    file matches Some(file) ==> file.id.len() == digest_len(kind) && !is_zero(file.id)
}

/// What the header says of `cache`.
pub open spec fn header_of(cache: UntrackedCacheView, kind: Kind) -> Header {
    Header {
        identifier: cache.identifier,
        info_exclude_stat: match cache.info_exclude {
            Some(file) => file.stat,
            None => zero_stat(),
        },
        excludes_file_stat: match cache.excludes_file {
            Some(file) => file.stat,
            None => zero_stat(),
        },
        dir_flags: cache.dir_flags,
        info_exclude_id: optional_id_bytes(file_id(cache.info_exclude), kind),
        excludes_file_id: optional_id_bytes(file_id(cache.excludes_file), kind),
        exclude_filename_per_dir: cache.exclude_filename_per_dir,
        num_directories: cache.directories.len() as u64,
    }
}

/// Bytes can be appended one part after another.
pub proof fn lemma_appended(front: Seq<u8>, part: Seq<u8>, rest: Seq<u8>)
    ensures
        front + (part + rest) == front + part + rest,
{
    assert(front + (part + rest) =~= front + part + rest);
}

/// Reading the header gives back what was written.
#[verifier::rlimit(40)]
proof fn lemma_header_read(cache: UntrackedCacheView, kind: Kind, rest: Seq<u8>)
    requires
        cache.identifier.len() <= u64::MAX,
        cache.directories.len() <= u64::MAX,
        file_is_readable(cache.info_exclude, kind),
        file_is_readable(cache.excludes_file, kind),
        !cache.exclude_filename_per_dir.contains(0),
    ensures
        header_parsed(header_bytes(cache, kind) + rest, digest_len(kind)) == Some((header_of(cache, kind), rest)),
{
    let header = header_of(cache, kind);
    let seventh = var_int_bytes(cache.directories.len()) + rest;
    let sixth = cache.exclude_filename_per_dir.push(0) + seventh;
    let fifth = header.excludes_file_id + sixth;
    let fourth = header.info_exclude_id + fifth;
    let third = u32_be_bytes(cache.dir_flags) + fourth;
    let second = stat_bytes(header.excludes_file_stat) + third;
    let first = stat_bytes(header.info_exclude_stat) + second;
    let start = cache.identifier + first;
    let data = header_bytes(cache, kind) + rest;
    assert(data == var_int_bytes(cache.identifier.len()) + start) by {
        let len_bytes = var_int_bytes(cache.identifier.len());
        lemma_appended(len_bytes, cache.identifier, first);
        let front = len_bytes + cache.identifier;
        lemma_appended(front, stat_bytes(header.info_exclude_stat), second);
        let front = front + stat_bytes(header.info_exclude_stat);
        lemma_appended(front, stat_bytes(header.excludes_file_stat), third);
        let front = front + stat_bytes(header.excludes_file_stat);
        lemma_appended(front, u32_be_bytes(cache.dir_flags), fourth);
        let front = front + u32_be_bytes(cache.dir_flags);
        lemma_appended(front, header.info_exclude_id, fifth);
        let front = front + header.info_exclude_id;
        lemma_appended(front, header.excludes_file_id, sixth);
        let front = front + header.excludes_file_id;
        lemma_appended(front, cache.exclude_filename_per_dir.push(0), seventh);
        let front = front + cache.exclude_filename_per_dir.push(0);
        lemma_appended(front, var_int_bytes(cache.directories.len()), rest);
    }
    assert(identifier_parsed(data) == Some((cache.identifier, first))) by {
        law_var_int_read_gives_back_written(cache.identifier.len() as u64, start);
        lemma_split_bytes_append(cache.identifier, first);
    }
    assert(stat_parsed(first) == Some((header.info_exclude_stat, second))) by {
        law_stat_read_gives_back_written(header.info_exclude_stat, second);
    }
    assert(stat_parsed(second) == Some((header.excludes_file_stat, third))) by {
        law_stat_read_gives_back_written(header.excludes_file_stat, third);
    }
    assert(u32_parsed(third) == Some((cache.dir_flags, fourth))) by {
        law_u32_read_gives_back_written(cache.dir_flags, fourth);
    }
    assert(split_bytes(fourth, digest_len(kind)) == Some((header.info_exclude_id, fifth))) by {
        lemma_split_bytes_append(header.info_exclude_id, fifth);
    }
    assert(split_bytes(fifth, digest_len(kind)) == Some((header.excludes_file_id, sixth))) by {
        lemma_split_bytes_append(header.excludes_file_id, sixth);
    }
    assert(split_at_byte(sixth, 0) == Some((cache.exclude_filename_per_dir, seventh))) by {
        law_terminated_string_is_found(cache.exclude_filename_per_dir, 0, seventh);
    }
    assert(var_int_parsed(seventh) == Some((header.num_directories, rest))) by {
        law_var_int_read_gives_back_written(header.num_directories, rest);
    }
}

/// Whether the untracked entries of each of `directories` are no more than there are pairs of bytes after its name.
pub open spec fn entries_have_room(directories: Seq<DirectoryView>) -> bool {
    forall|i: int|
        0 <= i < directories.len() ==> #[trigger] has_room(
            directories,
            i,
            directories.len() as int,
            attributes_bytes(directories).len(),
        )
}

/// Whether `cache` is of the kind that can be read again once it was written.
///
/// Directories must form a tree in depth-first order, strings be free of the byte that terminates them, ids be of
/// `kind`, those of files that are present differ from those that mark their absence, and the untracked entries of a
/// directory be no more than there are pairs of bytes after its name.
pub open spec fn is_readable(cache: UntrackedCacheView, kind: Kind) -> bool {
    let directories = cache.directories;
    &&& !cache.exclude_filename_per_dir.contains(0)
    &&& file_is_readable(cache.info_exclude, kind)
    &&& file_is_readable(cache.excludes_file, kind)
    &&& is_tree(directories)
    &&& entries_have_room(directories)
    &&& forall|i: int|
        0 <= i < directories.len() ==> is_terminable(#[trigger] directories[i]) && has_id_of(directories[i], kind)
}

/// A string list is no longer than all blocks are.
proof fn lemma_block_within(directories: Seq<DirectoryView>, index: int)
    requires
        0 <= index < directories.len(),
    ensures
        directories[index].untracked_entries.len() <= blocks_bytes(directories).len(),
{
    let len = directories.len() as int;
    assert(directories.subrange(0, len) =~= directories);
    lemma_blocks_bytes_split(directories, 0, index, len);
    lemma_blocks_bytes_split(directories, index, index + 1, len);
    lemma_blocks_bytes_one(directories, index);
    lemma_strings_len(directories[index].untracked_entries);
}

/// What the header says of a cache is enough to assemble it again.
proof fn lemma_assembled(cache: UntrackedCacheView, kind: Kind)
    requires
        file_is_readable(cache.info_exclude, kind),
        file_is_readable(cache.excludes_file, kind),
    ensures
        assembled(header_of(cache, kind), cache.directories) == cache,
{
    assert(is_zero(null_digest(kind)));
}

/// The directories of a cache that is small enough can be read, as their attributes are what follows them.
pub proof fn lemma_directories_can_be_read(cache: UntrackedCacheView, kind: Kind)
    requires
        blocks_bytes(cache.directories).len() <= u32::MAX,
        is_readable(cache, kind),
    ensures
        can_be_read(
            cache.directories,
            0,
            cache.directories.len() as int,
            attributes_bytes(cache.directories).len(),
        ),
        cache.directories.len() <= u32::MAX,
{
    let directories = cache.directories;
    let len = directories.len() as int;
    let rest_len = attributes_bytes(directories).len();
    lemma_blocks_len(directories);
    assert forall|i: int| 0 <= i < len implies is_terminable(#[trigger] directories[i])
        && directories[i].untracked_entries.len() <= u64::MAX && has_room(directories, i, len, rest_len) by {
        lemma_block_within(directories, i);
        assert(has_room(directories, i, len, rest_len));
    }
}

/// Decoding the payload that a cache without directories is written to gives back the cache.
#[verifier::rlimit(40)]
proof fn lemma_empty_cache_read(cache: UntrackedCacheView, kind: Kind)
    requires
        cache.directories.len() == 0,
        cache_bytes(cache, kind).len() <= u32::MAX,
        is_readable(cache, kind),
    ensures
        cache_parsed(cache_bytes(cache, kind), kind, None) == Some(cache),
{
    let data = cache_bytes(cache, kind);
    assert(data + Seq::empty() =~= data);
    lemma_header_read(cache, kind, Seq::empty());
    assert(data.last() == var_int_bytes(0).last());
    assert(var_int_bytes(0).last() == 0);
    assert(cache.directories =~= Seq::empty());
    lemma_assembled(cache, kind);
}

/// Decoding the payload that `cache` is written to gives back `cache`, if it can be read at all.
#[verifier::rlimit(40)]
pub proof fn lemma_cache_read(cache: UntrackedCacheView, kind: Kind)
    requires
        cache_bytes(cache, kind).len() <= u32::MAX,
        cache.directories.len() > 0 ==> walks_are_known(cache.directories),
        is_readable(cache, kind),
    ensures
        cache_parsed(cache_bytes(cache, kind), kind, None) == Some(cache),
{
    let directories = cache.directories;
    let len = directories.len() as int;
    if len == 0 {
        lemma_empty_cache_read(cache, kind);
    } else {
        let data = cache_bytes(cache, kind);
        let blocks = blocks_bytes(directories);
        let attributes = attributes_bytes(directories);
        law_tree_is_written_in_order(directories, 0);
        lemma_appended(header_bytes(cache, kind), blocks, attributes);
        assert(data == header_bytes(cache, kind) + (blocks + attributes));
        assert(attributes.len() > 0 && attributes.last() == 0) by {
            assert(attributes.last() == present_bytes(oid_values(directories)).push(0).last());
        }
        assert(data.last() == 0);
        lemma_blocks_len(directories);
        lemma_directories_can_be_read(cache, kind);
        lemma_header_read(cache, kind, blocks + attributes);
        assert(checked_header_parsed(data, kind) == Some((header_of(cache, kind), blocks + attributes)));
        assert(directories.subrange(0, len) =~= directories);
        law_directory_block_read_gives_back_written(directories, 0, len, attributes);
        lemma_attributes_read(directories, kind);
        lemma_assembled(cache, kind);
    }
}

} // verus!
