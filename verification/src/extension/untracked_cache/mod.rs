//! The untracked cache, which remembers the untracked files of each directory of a worktree.

use vstd::prelude::*;

pub use decode::decode;
pub use decode::decode_directory_block;
pub use decode::try_decode;
pub use decode::Allocation;
pub use decode::DecodeError;
pub use write::write_object_id;
pub use write::write_stat;
pub use write::write_var_int;

use crate::entry::Stat;
use crate::extension::untracked_cache::structure::is_acyclic;
use crate::extension::Signature;
use crate::hash::ObjectId;
use crate::util::owned;

mod decode;
pub mod encoding;
pub mod extent;
pub mod format;
pub mod laws;
pub mod layout;
pub mod memory;
pub mod round_trip;
pub mod structure;
mod write;

verus! {

/// `UNTR`, only used as an indicator
pub const SIGNATURE: Signature = [0x55, 0x4e, 0x54, 0x52];

/// An extension to remember untracked files, along with what is needed to tell if that is still accurate.
#[derive(Debug)]
pub struct UntrackedCache {
    identifier: Vec<u8>,
    info_exclude: Option<OidStat>,
    excludes_file: Option<OidStat>,
    exclude_filename_per_dir: Vec<u8>,
    dir_flags: u32,
    directories: Vec<Directory>,
}

/// A structure to track filesystem stat information along with an object id, linking a worktree file with what's in
/// our ODB.
#[derive(Clone, Copy, Debug)]
pub struct OidStat {
    /// The file system stat information
    pub stat: Stat,
    /// The id of the file in our ODB.
    pub id: ObjectId,
}

/// A directory with information about its untracked files, and its sub-directories
#[derive(Debug)]
pub struct Directory {
    /// The directories name, or an empty string if this is the root directory.
    pub name: Vec<u8>,
    /// Untracked files and directory names
    pub untracked_entries: Vec<Vec<u8>>,
    /// indices for sub-directories similar to this one.
    pub sub_directories: Vec<usize>,
    /// The directories stat data, if available or valid.
    pub stat: Option<Stat>,
    /// The oid of a .gitignore file, if it exists
    pub exclude_file_oid: Option<ObjectId>,
    /// Whether the directory was marked as check-only.
    pub check_only: bool,
}

/// What there is to know of an [`OidStat`].
pub struct OidStatView {
    /// The file system stat information
    pub stat: Stat,
    /// The bytes of the id.
    pub id: Seq<u8>,
}

/// What there is to know of a [`Directory`].
#[verifier::ext_equal]
pub struct DirectoryView {
    /// The name.
    pub name: Seq<u8>,
    /// The names of untracked entries.
    pub untracked_entries: Seq<Seq<u8>>,
    /// Indices of sub-directories.
    pub sub_directories: Seq<usize>,
    /// The stat data.
    pub stat: Option<Stat>,
    /// The bytes of the id of a .gitignore file.
    pub exclude_file_oid: Option<Seq<u8>>,
    /// Whether the directory was marked as check-only.
    pub check_only: bool,
}

/// What there is to know of an [`UntrackedCache`].
#[verifier::ext_equal]
pub struct UntrackedCacheView {
    /// Something identifying the location and machine that this cache is for.
    pub identifier: Seq<u8>,
    /// Stat and object id for the `.git/info/exclude` file.
    pub info_exclude: Option<OidStatView>,
    /// Stat and object id for the `core.excludesfile`.
    pub excludes_file: Option<OidStatView>,
    /// Usually `.gitignore`.
    pub exclude_filename_per_dir: Seq<u8>,
    /// The directory flags.
    pub dir_flags: u32,
    /// All directories, the first of which is the root.
    pub directories: Seq<DirectoryView>,
}

impl View for OidStat {
    type V = OidStatView;

    open spec fn view(&self) -> OidStatView {
        OidStatView { stat: self.stat, id: self.id@ }
    }
}

impl View for Directory {
    type V = DirectoryView;

    open spec fn view(&self) -> DirectoryView {
        DirectoryView {
            name: self.name@,
            untracked_entries: self.untracked_entries@.map_values(|entry: Vec<u8>| entry@),
            sub_directories: self.sub_directories@,
            stat: self.stat,
            exclude_file_oid: match self.exclude_file_oid {
                Some(id) => Some(id@),
                None => None,
            },
            check_only: self.check_only,
        }
    }
}

/// What there is to know of an optional [`OidStat`].
pub open spec fn oid_stat_view(value: Option<OidStat>) -> Option<OidStatView> {
    match value {
        Some(value) => Some(value@),
        None => None,
    }
}

/// What there is to know of each of `directories`.
pub open spec fn directory_views(directories: Seq<Directory>) -> Seq<DirectoryView> {
    directories.map_values(|directory: Directory| directory@)
}

impl UntrackedCache {
    /// No directory is nested within itself.
    #[verifier::type_invariant]
    pub closed spec fn is_valid(self) -> bool {
        is_acyclic(directory_views(self.directories@))
    }
}

impl View for UntrackedCache {
    type V = UntrackedCacheView;

    closed spec fn view(&self) -> UntrackedCacheView {
        UntrackedCacheView {
            identifier: self.identifier@,
            info_exclude: oid_stat_view(self.info_exclude),
            excludes_file: oid_stat_view(self.excludes_file),
            exclude_filename_per_dir: self.exclude_filename_per_dir@,
            dir_flags: self.dir_flags,
            directories: directory_views(self.directories@),
        }
    }
}

/// Return a copy of each of `names`.
fn owned_names(names: &Vec<Vec<u8>>) -> (res: Vec<Vec<u8>>)
    ensures
        res@.map_values(|name: Vec<u8>| name@) == names@.map_values(|name: Vec<u8>| name@),
{
    let mut res: Vec<Vec<u8>> = Vec::new();
    let mut index: usize = 0;
    while index < names.len()
        invariant
            index <= names.len(),
            res@.len() == index,
            forall|i: int| 0 <= i < index ==> (#[trigger] res@[i])@ == names@[i]@,
        decreases names.len() - index,
    {
        res.push(owned(names[index].as_slice()));
        index = index + 1;
    }
    assert(res@.map_values(|name: Vec<u8>| name@) =~= names@.map_values(|name: Vec<u8>| name@));
    res
}

impl Clone for Directory {
    fn clone(&self) -> (res: Self)
        ensures
            res@ == self@,
    {
        let mut sub_directories: Vec<usize> = Vec::new();
        sub_directories.extend_from_slice(self.sub_directories.as_slice());
        assert(sub_directories@ =~= self.sub_directories@);
        Directory {
            name: owned(self.name.as_slice()),
            untracked_entries: owned_names(&self.untracked_entries),
            sub_directories,
            stat: self.stat,
            exclude_file_oid: self.exclude_file_oid,
            check_only: self.check_only,
        }
    }
}

impl Clone for UntrackedCache {
    fn clone(&self) -> (res: Self)
        ensures
            res@ == self@,
    {
        proof {
            use_type_invariant(self);
        }
        let mut directories: Vec<Directory> = Vec::new();
        let mut index: usize = 0;
        while index < self.directories.len()
            invariant
                index <= self.directories.len(),
                directories@.len() == index,
                forall|i: int| 0 <= i < index ==> (#[trigger] directories@[i])@ == self.directories@[i]@,
            decreases self.directories.len() - index,
        {
            directories.push(self.directories[index].clone());
            index = index + 1;
        }
        assert(directory_views(directories@) =~= directory_views(self.directories@));
        UntrackedCache {
            identifier: owned(self.identifier.as_slice()),
            info_exclude: self.info_exclude,
            excludes_file: self.excludes_file,
            exclude_filename_per_dir: owned(self.exclude_filename_per_dir.as_slice()),
            dir_flags: self.dir_flags,
            directories,
        }
    }
}

impl UntrackedCache {
    /// Something identifying the location and machine that this cache is for.
    pub fn identifier(&self) -> (res: &[u8])
        ensures
            res@ == self@.identifier,
    {
        self.identifier.as_slice()
    }

    /// Stat and object id for the `.git/info/exclude` file, if available.
    pub fn info_exclude(&self) -> (res: Option<&OidStat>)
        ensures
            match res {
                Some(file) => self@.info_exclude == Some(file@),
                None => self@.info_exclude is None,
            },
    {
        self.info_exclude.as_ref()
    }

    /// Stat and object id for the `core.excludesfile`, if available.
    pub fn excludes_file(&self) -> (res: Option<&OidStat>)
        ensures
            match res {
                Some(file) => self@.excludes_file == Some(file@),
                None => self@.excludes_file is None,
            },
    {
        self.excludes_file.as_ref()
    }

    /// Usually `.gitignore`.
    pub fn exclude_filename_per_dir(&self) -> (res: &[u8])
        ensures
            res@ == self@.exclude_filename_per_dir,
    {
        self.exclude_filename_per_dir.as_slice()
    }

    /// The directory flags Git used while populating the cache.
    pub fn dir_flags(&self) -> (res: u32)
        ensures
            res == self@.dir_flags,
    {
        self.dir_flags
    }

    /// A list of directories and sub-directories, with `directories[0]` being the root.
    pub fn directories(&self) -> (res: &[Directory])
        ensures
            directory_views(res@) == self@.directories,
            is_acyclic(directory_views(res@)),
    {
        proof {
            use_type_invariant(self);
        }
        self.directories.as_slice()
    }
}

impl OidStat {
    /// The file system stat information.
    pub fn stat(&self) -> (res: &Stat)
        ensures
            *res == self.stat,
    {
        &self.stat
    }

    /// The id of the file in our ODB.
    pub fn id(&self) -> (res: ObjectId)
        ensures
            res == self.id,
    {
        self.id
    }
}

impl Directory {
    /// The directory name, or an empty string if this is the root directory.
    /// `/` is always used as path-separator.
    pub fn name(&self) -> (res: &[u8])
        ensures
            res@ == self.name@,
    {
        self.name.as_slice()
    }

    /// Untracked files and directory names.
    pub fn untracked_entries(&self) -> (res: &[Vec<u8>])
        ensures
            res@ == self.untracked_entries@,
    {
        self.untracked_entries.as_slice()
    }

    /// Indices for sub-directories similar to this one.
    pub fn sub_directories(&self) -> (res: &[usize])
        ensures
            res@ == self.sub_directories@,
    {
        self.sub_directories.as_slice()
    }

    /// The directory stat data, if available and valid.
    pub fn stat(&self) -> (res: Option<&Stat>)
        ensures
            match res {
                Some(stat) => self.stat == Some(*stat),
                None => self.stat is None,
            },
    {
        self.stat.as_ref()
    }

    /// The oid of a `.gitignore` file, if it exists.
    pub fn exclude_file_oid(&self) -> (res: Option<ObjectId>)
        ensures
            res == self.exclude_file_oid,
    {
        self.exclude_file_oid
    }

    /// Whether Git marked this directory as check-only.
    pub fn check_only(&self) -> (res: bool)
        ensures
            res == self.check_only,
    {
        self.check_only
    }
}

} // verus!
