//! Which memory is asked for while an untracked cache is decoded.

use std::collections::TryReserveError;

use vstd::prelude::*;

use crate::extension::untracked_cache::format::block_counts_parsed;
use crate::extension::untracked_cache::format::block_head_parsed;
use crate::extension::untracked_cache::format::checked_header_parsed;
use crate::extension::untracked_cache::format::directory_parsed;
use crate::extension::untracked_cache::format::lemma_block_head_shrinks;
use crate::extension::untracked_cache::format::may_hold_directories;
use crate::extension::untracked_cache::Directory;
use crate::hash::Kind;

verus! {

/// Whether a list was asked to make room for `count` more values of type `T`, and could not.
pub open spec fn is_refused<T>(count: usize) -> bool {
    exists|asked: &mut Vec<T>, answer: Result<(), TryReserveError>| #[trigger]
        call_ensures(Vec::<T>::try_reserve, (asked, count), answer) && answer is Err
}

/// Whether a list was asked to make room for `count` more values of type `T`, and did.
pub open spec fn is_granted<T>(count: usize) -> bool {
    exists|asked: &mut Vec<T>, answer: Result<(), TryReserveError>| #[trigger]
        call_ensures(Vec::<T>::try_reserve, (asked, count), answer) && answer is Ok
}

/// Whether memory was refused for one of the lists that the directory block at the start of `data` needs: that of
/// untracked entries, that of sub-directories, or one of a block of a sub-directory.
///
/// A list is asked to make room as soon as the amount of its values is known.
pub open spec fn directory_is_refused(data: Seq<u8>, index: nat, limit: Option<usize>) -> bool
    decreases data.len(), 0nat,
{
    match block_counts_parsed(data, limit) {
        Some((counts, _)) => {
            ||| is_refused::<Vec<u8>>(counts.num_untracked as usize)
            ||| match block_head_parsed(data, limit) {
                Some((head, tail)) => {
                    proof {
                        lemma_block_head_shrinks(data, limit);
                    }
                    ||| is_refused::<usize>(counts.num_dirs as usize)
                    ||| sub_directories_are_refused(tail, index + 1, head.num_sub_directories, limit)
                },
                None => false,
            }
        },
        None => false,
    }
}

/// Whether memory was refused for one of the lists that the first `count` directory blocks of `data` need.
pub open spec fn sub_directories_are_refused(data: Seq<u8>, index: nat, count: nat, limit: Option<usize>) -> bool
    decreases data.len(), 1nat,
{
    &&& count > 0
    &&& {
        ||| directory_is_refused(data, index, limit)
        ||| match directory_parsed(data, index, limit) {
            Some((first, tail)) => tail.len() < data.len() && sub_directories_are_refused(
                tail,
                index + first.len(),
                (count - 1) as nat,
                limit,
            ),
            None => false,
        }
    }
}

/// Whether memory was granted for all lists that the directory block at the start of `data` needs.
pub open spec fn directory_is_granted(data: Seq<u8>, index: nat, limit: Option<usize>) -> bool
    decreases data.len(), 0nat,
{
    match (block_counts_parsed(data, limit), block_head_parsed(data, limit)) {
        (Some((counts, _)), Some((head, tail))) => {
            proof {
                lemma_block_head_shrinks(data, limit);
            }
            &&& is_granted::<Vec<u8>>(counts.num_untracked as usize)
            &&& is_granted::<usize>(counts.num_dirs as usize)
            &&& sub_directories_are_granted(tail, index + 1, head.num_sub_directories, limit)
        },
        _ => false,
    }
}

/// Whether memory was granted for all lists that the first `count` directory blocks of `data` need.
pub open spec fn sub_directories_are_granted(data: Seq<u8>, index: nat, count: nat, limit: Option<usize>) -> bool
    decreases data.len(), 1nat,
{
    count > 0 ==> directory_is_granted(data, index, limit) && match directory_parsed(data, index, limit) {
        Some((first, tail)) => tail.len() < data.len() && sub_directories_are_granted(
            tail,
            index + first.len(),
            (count - 1) as nat,
            limit,
        ),
        None => false,
    }
}

/// Whether memory was refused for one of the lists that the cache in `data` needs: that of all directories, or one of
/// a directory block. None is needed if there are no directories.
pub open spec fn cache_is_refused(data: Seq<u8>, kind: Kind, limit: Option<usize>) -> bool {
    match checked_header_parsed(data, kind) {
        Some((header, rest)) => {
            &&& header.num_directories > 0
            &&& may_hold_directories(header.num_directories, rest, limit)
            &&& is_refused::<Directory>(header.num_directories as usize) || directory_is_refused(rest, 0, limit)
        },
        None => false,
    }
}

/// Whether memory was granted for all lists that the cache in `data` needs.
pub open spec fn cache_is_granted(data: Seq<u8>, kind: Kind, limit: Option<usize>) -> bool {
    match checked_header_parsed(data, kind) {
        Some((header, rest)) => header.num_directories > 0 ==> is_granted::<Directory>(
            header.num_directories as usize,
        ) && directory_is_granted(rest, 0, limit),
        None => false,
    }
}

} // verus!
