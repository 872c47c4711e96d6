//! Decoding of what several parts of an index file have in common.

use vstd::prelude::*;

use crate::entry::law_stat_bytes_give_back_stat;
use crate::entry::stat_bytes;
use crate::entry::stat_value;
use crate::entry::Stat;
use crate::entry::Time;
use crate::entry::STAT_LEN;
use crate::util::lemma_split_bytes_append;
use crate::util::read_u32;
use crate::util::split_bytes;
use crate::util::u32_be_value;

verus! {

/// The stat information that `data` starts with and what follows it.
pub open spec fn stat_parsed(data: Seq<u8>) -> Option<(Stat, Seq<u8>)> {
    match split_bytes(data, STAT_LEN as int) {
        Some((bytes, rest)) => Some((stat_value(bytes), rest)),
        None => None,
    }
}

/// Reading stat information gives back what was written, and leaves what follows it.
pub proof fn law_stat_read_gives_back_written(stat: Stat, rest: Seq<u8>)
    ensures
        stat_parsed(stat_bytes(stat) + rest) == Some((stat, rest)),
{
    law_stat_bytes_give_back_stat(stat);
    lemma_split_bytes_append(stat_bytes(stat), rest);
}

/// Read stat information off the front of `data`, or return `None` if there are not enough bytes.
pub fn stat(data: &[u8]) -> (res: Option<(Stat, &[u8])>)
    ensures
        match res {
            Some((stat, rest)) => stat_parsed(data@) == Some((stat, rest@)),
            None => stat_parsed(data@) is None,
        },
{
    let ghost start = data@;
    let (ctime_secs, data) = read_u32(data)?;
    let (ctime_nsecs, data) = read_u32(data)?;
    let (mtime_secs, data) = read_u32(data)?;
    let (mtime_nsecs, data) = read_u32(data)?;
    let (dev, data) = read_u32(data)?;
    let (ino, data) = read_u32(data)?;
    let (uid, data) = read_u32(data)?;
    let (gid, data) = read_u32(data)?;
    let (size, data) = read_u32(data)?;
    proof {
        let bytes = start.subrange(0, 36);
        assert(bytes.subrange(0, 4) =~= start.subrange(0, 4));
        assert(data@ =~= start.subrange(36, start.len() as int));
    }
    Some(
        (
            Stat {
                mtime: Time { secs: mtime_secs, nsecs: mtime_nsecs },
                ctime: Time { secs: ctime_secs, nsecs: ctime_nsecs },
                dev,
                ino,
                uid,
                gid,
                size,
            },
            data,
        ),
    )
}

/// Stat information consists of nine numbers of four bytes each: both parts of the creation time, both of the
/// modification time, device, inode, user, group and size.
pub proof fn law_stat_is_read_from_nine_numbers(data: Seq<u8>)
    ensures
        stat_parsed(data) is Some <==> data.len() >= 36,
        stat_parsed(data) matches Some((stat, rest)) ==> {
            &&& stat.ctime.secs == u32_be_value(data.subrange(0, 4))
            &&& stat.ctime.nsecs == u32_be_value(data.subrange(4, 8))
            &&& stat.mtime.secs == u32_be_value(data.subrange(8, 12))
            &&& stat.mtime.nsecs == u32_be_value(data.subrange(12, 16))
            &&& stat.dev == u32_be_value(data.subrange(16, 20))
            &&& stat.ino == u32_be_value(data.subrange(20, 24))
            &&& stat.uid == u32_be_value(data.subrange(24, 28))
            &&& stat.gid == u32_be_value(data.subrange(28, 32))
            &&& stat.size == u32_be_value(data.subrange(32, 36))
            &&& rest == data.skip(36)
        },
{
    if data.len() >= 36 {
        let bytes = data.subrange(0, 36);
        assert(bytes.subrange(0, 4) =~= data.subrange(0, 4));
        assert(bytes.subrange(4, 8) =~= data.subrange(4, 8));
        assert(bytes.subrange(8, 12) =~= data.subrange(8, 12));
        assert(bytes.subrange(12, 16) =~= data.subrange(12, 16));
        assert(bytes.subrange(16, 20) =~= data.subrange(16, 20));
        assert(bytes.subrange(20, 24) =~= data.subrange(20, 24));
        assert(bytes.subrange(24, 28) =~= data.subrange(24, 28));
        assert(bytes.subrange(28, 32) =~= data.subrange(28, 32));
        assert(bytes.subrange(32, 36) =~= data.subrange(32, 36));
        assert(data.subrange(36, data.len() as int) =~= data.skip(36));
    }
}

} // verus!
