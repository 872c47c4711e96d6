//! An untracked cache takes up all of the data that it is decoded from.

use vstd::prelude::*;

use crate::bitmap::bitmap_parsed;
use crate::bitmap::lemma_bitmap_extended;
use crate::decode::stat_parsed;
use crate::entry::STAT_LEN;
use crate::extension::untracked_cache::format::attributes_parsed;
use crate::extension::untracked_cache::format::bitmaps_parsed;
use crate::extension::untracked_cache::format::block_head_parsed;
use crate::extension::untracked_cache::format::cache_parsed;
use crate::extension::untracked_cache::format::checked_header_parsed;
use crate::extension::untracked_cache::format::directory_parsed;
use crate::extension::untracked_cache::format::header_parsed;
use crate::extension::untracked_cache::format::identifier_parsed;
use crate::extension::untracked_cache::format::lemma_block_head_shrinks;
use crate::extension::untracked_cache::format::lemma_directory_shrinks;
use crate::extension::untracked_cache::format::strings_parsed;
use crate::extension::untracked_cache::format::sub_directories_parsed;
use crate::extension::untracked_cache::DirectoryView;
use crate::hash::digest_len;
use crate::hash::Kind;
use crate::util::lemma_split_at_byte_extended;
use crate::util::lemma_split_bytes_extended;
use crate::util::lemma_var_int_extended;
use crate::util::split_at_byte;
use crate::util::split_bytes;
use crate::util::u32_parsed;
use crate::util::var_int_parsed;

verus! {

/// Strings are read the same way if more bytes follow.
proof fn lemma_strings_extended(data: Seq<u8>, count: nat, more: Seq<u8>)
    ensures
        strings_parsed(data, count) matches Some((strings, rest)) ==> strings_parsed(data + more, count) == Some(
            (strings, rest + more),
        ),
    decreases count,
{
    if count > 0 {
        lemma_strings_extended(data, (count - 1) as nat, more);
        if let Some((_, tail)) = strings_parsed(data, (count - 1) as nat) {
            lemma_split_at_byte_extended(tail, 0, more);
        }
    }
}

/// A block head is read the same way if more bytes follow.
proof fn lemma_block_head_extended(data: Seq<u8>, limit: Option<usize>, more: Seq<u8>)
    ensures
        block_head_parsed(data, limit) matches Some((head, rest)) ==> block_head_parsed(data + more, limit) == Some(
            (head, rest + more),
        ),
{
    if let Some((head, rest)) = block_head_parsed(data, limit) {
        let (num_untracked, first) = var_int_parsed(data)->0;
        let (_, second) = var_int_parsed(first)->0;
        let (_, third) = split_at_byte(second, 0)->0;
        lemma_var_int_extended(data, more);
        lemma_var_int_extended(first, more);
        lemma_split_at_byte_extended(second, 0, more);
        lemma_strings_extended(third, num_untracked as nat, more);
    }
}

/// A directory block is read the same way if more bytes follow.
proof fn lemma_directory_extended(data: Seq<u8>, index: nat, limit: Option<usize>, more: Seq<u8>)
    ensures
        directory_parsed(data, index, limit) matches Some((directories, rest)) ==> directory_parsed(
            data + more,
            index,
            limit,
        ) == Some((directories, rest + more)),
    decreases data.len(), 0nat,
{
    if let Some((head, tail)) = block_head_parsed(data, limit) {
        lemma_block_head_shrinks(data, limit);
        lemma_block_head_extended(data, limit, more);
        lemma_sub_directories_extended(tail, index + 1, head.num_sub_directories, limit, more);
    }
}

/// Several directory blocks are read the same way if more bytes follow.
proof fn lemma_sub_directories_extended(
    data: Seq<u8>,
    index: nat,
    count: nat,
    limit: Option<usize>,
    more: Seq<u8>,
)
    ensures
        sub_directories_parsed(data, index, count, limit) matches Some((indices, directories, rest))
            ==> sub_directories_parsed(data + more, index, count, limit) == Some((indices, directories, rest + more)),
    decreases data.len(), 1nat,
{
    if count > 0 {
        lemma_directory_extended(data, index, limit, more);
        lemma_directory_shrinks(data, index, limit);
        if let Some((first, tail)) = directory_parsed(data, index, limit) {
            lemma_sub_directories_extended(tail, index + first.len(), (count - 1) as nat, limit, more);
        }
    }
}

/// The header is read the same way if more bytes follow.
proof fn lemma_header_extended(data: Seq<u8>, hash_len: int, more: Seq<u8>)
    ensures
        header_parsed(data, hash_len) matches Some((header, rest)) ==> header_parsed(data + more, hash_len) == Some(
            (header, rest + more),
        ),
{
    if let Some((header, rest)) = header_parsed(data, hash_len) {
        let (len, start) = var_int_parsed(data)->0;
        let (_, first) = identifier_parsed(data)->0;
        let (_, second) = stat_parsed(first)->0;
        let (_, third) = stat_parsed(second)->0;
        let (_, fourth) = u32_parsed(third)->0;
        let (_, fifth) = split_bytes(fourth, hash_len)->0;
        let (_, sixth) = split_bytes(fifth, hash_len)->0;
        let (_, seventh) = split_at_byte(sixth, 0)->0;
        lemma_var_int_extended(data, more);
        lemma_split_bytes_extended(start, len as int, more);
        lemma_split_bytes_extended(first, STAT_LEN as int, more);
        lemma_split_bytes_extended(second, STAT_LEN as int, more);
        lemma_split_bytes_extended(third, 4, more);
        lemma_split_bytes_extended(fourth, hash_len, more);
        lemma_split_bytes_extended(fifth, hash_len, more);
        lemma_split_at_byte_extended(sixth, 0, more);
        lemma_var_int_extended(seventh, more);
    }
}

/// The bitmaps are read the same way if more bytes follow.
proof fn lemma_bitmaps_extended(data: Seq<u8>, more: Seq<u8>)
    ensures
        bitmaps_parsed(data) matches Some((bitmaps, rest)) ==> bitmaps_parsed(data + more) == Some(
            (bitmaps, rest + more),
        ),
{
    if let Some((bitmaps, rest)) = bitmaps_parsed(data) {
        let (_, first) = bitmap_parsed(data)->0;
        let (_, second) = bitmap_parsed(first)->0;
        lemma_bitmap_extended(data, more);
        lemma_bitmap_extended(first, more);
        lemma_bitmap_extended(second, more);
    }
}

/// Nothing may follow the attributes of directories.
proof fn lemma_attributes_take_up_all_data(
    directories: Seq<DirectoryView>,
    data: Seq<u8>,
    hash_len: int,
    more: Seq<u8>,
)
    requires
        more.len() > 0,
        attributes_parsed(directories, data, hash_len) is Some,
    ensures
        attributes_parsed(directories, data + more, hash_len) is None,
{
    lemma_bitmaps_extended(data, more);
}

/// A cache takes up all of its data: nothing that follows it is accepted, and neither is anything that it starts with.
pub proof fn law_cache_takes_up_all_data(data: Seq<u8>, more: Seq<u8>, kind: Kind, limit: Option<usize>)
    requires
        more.len() > 0,
    ensures
        cache_parsed(data, kind, limit) is Some ==> cache_parsed(data + more, kind, limit) is None,
        cache_parsed(data + more, kind, limit) is Some ==> cache_parsed(data, kind, limit) is None,
{
    if cache_parsed(data, kind, limit) is Some {
        let (header, tail) = checked_header_parsed(data, kind)->0;
        lemma_header_extended(data, digest_len(kind), more);
        if header.num_directories != 0 {
            let (directories, rest) = directory_parsed(tail, 0, limit)->0;
            lemma_directory_extended(tail, 0, limit, more);
            lemma_attributes_take_up_all_data(directories, rest, digest_len(kind), more);
        }
    }
}

} // verus!
