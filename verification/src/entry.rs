//! What an index knows of a file.

use vstd::prelude::*;

use crate::util::lemma_u32_round_trip;
use crate::util::u32_be_bytes;
use crate::util::u32_be_value;

verus! {

/// A point in time as the filesystem records it.
#[derive(Clone, Copy, Debug, PartialEq, Eq, Structural)]
pub struct Time {
    /// The amount of seconds elapsed since the unix epoch.
    pub secs: u32,
    /// The amount of nanoseconds elapsed in the current second.
    pub nsecs: u32,
}

/// An entry's filesystem stat information.
#[derive(Clone, Copy, Debug, PartialEq, Eq, Structural)]
pub struct Stat {
    /// Modification time.
    pub mtime: Time,
    /// Creation time.
    pub ctime: Time,
    /// Device number.
    pub dev: u32,
    /// Inode number.
    pub ino: u32,
    /// User id of the owner.
    pub uid: u32,
    /// Group id of the owning group.
    pub gid: u32,
    /// The size of bytes on disk. Capped to 32 bits.
    pub size: u32,
}

/// Stat information with all values at zero.
pub open spec fn zero_stat() -> Stat {
    Stat {
        mtime: Time { secs: 0, nsecs: 0 },
        ctime: Time { secs: 0, nsecs: 0 },
        dev: 0,
        ino: 0,
        uid: 0,
        gid: 0,
        size: 0,
    }
}

impl Default for Stat {
    fn default() -> (res: Self)
        ensures
            res == zero_stat(),
    {
        Stat {
            mtime: Time { secs: 0, nsecs: 0 },
            ctime: Time { secs: 0, nsecs: 0 },
            dev: 0,
            ino: 0,
            uid: 0,
            gid: 0,
            size: 0,
        }
    }
}

/// The amount of bytes that stat information takes up on disk.
pub const STAT_LEN: usize = 36;

/// The bytes of `stat` on disk: nine big-endian numbers.
pub open spec fn stat_bytes(stat: Stat) -> Seq<u8> {
    u32_be_bytes(stat.ctime.secs) + u32_be_bytes(stat.ctime.nsecs) + u32_be_bytes(stat.mtime.secs) + u32_be_bytes(
        stat.mtime.nsecs,
    ) + u32_be_bytes(stat.dev) + u32_be_bytes(stat.ino) + u32_be_bytes(stat.uid) + u32_be_bytes(stat.gid)
        + u32_be_bytes(stat.size)
}

/// The number at `index` among the big-endian numbers of four bytes each that `bytes` holds.
pub open spec fn nth_u32(bytes: Seq<u8>, index: int) -> u32 {
    u32_be_value(bytes.subrange(4 * index, 4 * index + 4))
}

/// The stat information that `bytes` stand for, of which there are [`STAT_LEN`].
pub open spec fn stat_value(bytes: Seq<u8>) -> Stat {
    Stat {
        ctime: Time { secs: nth_u32(bytes, 0), nsecs: nth_u32(bytes, 1) },
        mtime: Time { secs: nth_u32(bytes, 2), nsecs: nth_u32(bytes, 3) },
        dev: nth_u32(bytes, 4),
        ino: nth_u32(bytes, 5),
        uid: nth_u32(bytes, 6),
        gid: nth_u32(bytes, 7),
        size: nth_u32(bytes, 8),
    }
}

/// A number is found where its bytes are.
proof fn lemma_nth_u32(bytes: Seq<u8>, index: int, value: u32)
    requires
        bytes.subrange(4 * index, 4 * index + 4) == u32_be_bytes(value),
    ensures
        nth_u32(bytes, index) == value,
{
    lemma_u32_round_trip(value);
}

/// Decoding the bytes of stat information gives the information back.
pub proof fn law_stat_bytes_give_back_stat(stat: Stat)
    ensures
        stat_bytes(stat).len() == STAT_LEN,
        stat_value(stat_bytes(stat)) == stat,
{
    let bytes = stat_bytes(stat);
    assert(bytes.len() == 36);
    assert(bytes.subrange(0, 4) =~= u32_be_bytes(stat.ctime.secs));
    lemma_nth_u32(bytes, 0, stat.ctime.secs);
    assert(bytes.subrange(4, 8) =~= u32_be_bytes(stat.ctime.nsecs));
    lemma_nth_u32(bytes, 1, stat.ctime.nsecs);
    assert(bytes.subrange(8, 12) =~= u32_be_bytes(stat.mtime.secs));
    lemma_nth_u32(bytes, 2, stat.mtime.secs);
    assert(bytes.subrange(12, 16) =~= u32_be_bytes(stat.mtime.nsecs));
    lemma_nth_u32(bytes, 3, stat.mtime.nsecs);
    assert(bytes.subrange(16, 20) =~= u32_be_bytes(stat.dev));
    lemma_nth_u32(bytes, 4, stat.dev);
    assert(bytes.subrange(20, 24) =~= u32_be_bytes(stat.ino));
    lemma_nth_u32(bytes, 5, stat.ino);
    assert(bytes.subrange(24, 28) =~= u32_be_bytes(stat.uid));
    lemma_nth_u32(bytes, 6, stat.uid);
    assert(bytes.subrange(28, 32) =~= u32_be_bytes(stat.gid));
    lemma_nth_u32(bytes, 7, stat.gid);
    assert(bytes.subrange(32, 36) =~= u32_be_bytes(stat.size));
    lemma_nth_u32(bytes, 8, stat.size);
}

/// What is known of an entry besides its stat information.
#[derive(Clone, Copy, Debug, PartialEq, Eq, Structural)]
pub struct Flags {
    /// Each bit is a flag.
    pub bits: u32,
}

impl Flags {
    /// There are flags that take up more than 16 bits on disk.
    pub const EXTENDED: u32 = 0x4000;

    /// Whether all of `flags` are set.
    pub open spec fn has(self, flags: u32) -> bool {
        self.bits & flags == flags
    }

    /// Return true if all of `flags` are set.
    pub fn contains(&self, flags: u32) -> (res: bool)
        ensures
            res == self.has(flags),
    {
        self.bits & flags == flags
    }

    /// Set all of `flags`, and leave all others as they are.
    pub fn insert(&mut self, flags: u32)
        ensures
            final(self).bits == old(self).bits | flags,
            final(self).has(flags),
            forall|other: u32| #[trigger] old(self).has(other) ==> final(self).has(other),
    {
        let ghost before = self.bits;
        self.bits = self.bits | flags;
        proof {
            assert((before | flags) & flags == flags) by (bit_vector);
            assert forall|other: u32| #[trigger] old(self).has(other) implies self.has(other) by {
                assert((before | flags) & other == other) by (bit_vector)
                    requires
                        before & other == other,
                ;
            }
        }
    }
}

/// A single flag is set if its bit is, and several flags are set if each of them is. What is set after more flags were
/// set are those that were set before, and these.
pub proof fn law_flags_are_set_bit_by_bit(flags: Flags, first: u32, second: u32, position: u32)
    requires
        position < 32,
    ensures
        flags.has(1u32 << position) <==> flags.bits >> position & 1 == 1,
        flags.has(first | second) <==> flags.has(first) && flags.has(second),
        flags.has(0),
        (Flags { bits: flags.bits | first }).has(1u32 << position) <==> flags.has(1u32 << position) || (Flags {
            bits: first,
        }).has(1u32 << position),
{
    let bits = flags.bits;
    assert(bits & (1u32 << position) == (1u32 << position) <==> bits >> position & 1 == 1) by (bit_vector)
        requires
            position < 32,
    ;
    assert(bits & (first | second) == (first | second) <==> bits & first == first && bits & second == second)
        by (bit_vector);
    assert(bits & 0 == 0) by (bit_vector);
    assert((bits | first) & (1u32 << position) == (1u32 << position) <==> bits & (1u32 << position) == (1u32
        << position) || first & (1u32 << position) == (1u32 << position)) by (bit_vector)
        requires
            position < 32,
    ;
}

} // verus!
