//! The versions of the index file format.

use vstd::prelude::*;

use crate::entry::Flags;

verus! {

/// The version of an index file.
#[derive(Clone, Copy, Debug, PartialEq, Eq, Structural)]
pub enum Version {
    /// Entries have 16 bits for their flags.
    V2,
    /// Entries may have another 16 bits for extended flags.
    V3,
}

/// Whether one of `entries`, given by their flags, has extended flags.
pub open spec fn has_extended_flags(entries: Seq<Flags>) -> bool {
    exists|i: int| 0 <= i < entries.len() && (#[trigger] entries[i]).has(Flags::EXTENDED)
}

impl Version {
    /// Return the lowest version that can represent all `entries`, which are given by their flags.
    ///
    /// Extended flags would be lost in the lowest version.
    pub fn required_for(entries: &[Flags]) -> (res: Version)
        ensures
            res == if has_extended_flags(entries@) {
                Version::V3
            } else {
                Version::V2
            },
    {
        let mut index: usize = 0;
        while index < entries.len()
            invariant
                index <= entries.len(),
                forall|i: int| 0 <= i < index ==> !(#[trigger] entries@[i]).has(Flags::EXTENDED),
            decreases entries.len() - index,
        {
            if entries[index].contains(Flags::EXTENDED) {
                assert(entries@[index as int].has(Flags::EXTENDED));
                return Version::V3;
            }
            index = index + 1;
        }
        Version::V2
    }
}

/// The version that can represent extended flags is required if one entry has the bit for them, and only then.
pub proof fn law_extended_flags_are_found(entries: Seq<Flags>, index: int)
    ensures
        0 <= index < entries.len() && entries[index].bits & 0x4000 == 0x4000 ==> has_extended_flags(entries),
        has_extended_flags(entries) ==> exists|i: int|
            0 <= i < entries.len() && (#[trigger] entries[i]).bits & 0x4000 == 0x4000,
{
    if 0 <= index < entries.len() && entries[index].bits & 0x4000 == 0x4000 {
        assert(entries[index].has(Flags::EXTENDED));
    }
}

} // verus!
