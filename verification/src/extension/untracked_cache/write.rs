//! Writing of an untracked cache.

use vstd::prelude::*;

use crate::bitmap::bitmap_from_bits;
use crate::bitmap::literal_bitmap;
use crate::bitmap::write_bitmap;
use crate::entry::stat_bytes;
use crate::entry::Stat;
use crate::extension::framed;
use crate::extension::untracked_cache::directory_views;
use crate::extension::untracked_cache::encoding::bitmaps_bytes;
use crate::extension::untracked_cache::encoding::block_head_bytes;
use crate::extension::untracked_cache::encoding::cache_bytes;
use crate::extension::untracked_cache::encoding::check_only_bits;
use crate::extension::untracked_cache::encoding::children_written;
use crate::extension::untracked_cache::encoding::directory_written;
use crate::extension::untracked_cache::encoding::hash_valid_bits;
use crate::extension::untracked_cache::encoding::header_bytes;
use crate::extension::untracked_cache::encoding::is_complete;
use crate::extension::untracked_cache::encoding::oid_values;
use crate::extension::untracked_cache::encoding::optional_id_bytes;
use crate::extension::untracked_cache::encoding::optional_stat_bytes;
use crate::extension::untracked_cache::encoding::present_bytes;
use crate::extension::untracked_cache::encoding::stat_values;
use crate::extension::untracked_cache::encoding::strings_bytes;
use crate::extension::untracked_cache::encoding::subtree_written;
use crate::extension::untracked_cache::encoding::valid_bits;
use crate::extension::untracked_cache::encoding::walk_is_known;
use crate::extension::untracked_cache::encoding::walks_are_known;
use crate::extension::untracked_cache::format::cache_parsed;
use crate::extension::untracked_cache::round_trip::is_readable;
use crate::extension::untracked_cache::round_trip::lemma_cache_read;
use crate::extension::untracked_cache::structure::nests_within;
use crate::extension::untracked_cache::Directory;
use crate::extension::untracked_cache::UntrackedCache;
use crate::extension::untracked_cache::SIGNATURE;
use crate::extension::write_extension;
use crate::extension::WriteError;
use crate::hash::Kind;
use crate::hash::ObjectId;
use crate::util::var_int_bytes;
use crate::util::var_int_prefix;
use crate::util::write_bytes;
use crate::util::write_u32;

verus! {

/// The largest number that remains to be written when the bytes of a `u64` before `position` are not written yet.
spec fn var_int_bound(position: nat) -> nat
    decreases 10 - position,
{
    if position >= 10 {
        u64::MAX as nat
    } else {
        var_int_bound(position + 1) / 128
    }
}

/// Append `value` to `out` as variable-length integer.
pub fn write_var_int(out: &mut Vec<u8>, value: usize)
    ensures
        final(out)@ == old(out)@ + var_int_bytes(value as nat),
{
    let ghost number = value as nat;
    let mut value: u64 = value as u64;
    let mut encoded: [u8; 10] = [0, 0, 0, 0, 0, 0, 0, 0, 0, 0];
    let mut position: usize = 9;
    encoded[position] = (value % 128) as u8;
    value = value / 128;
    proof {
        reveal_with_fuel(var_int_bound, 2);
        assert(encoded@.subrange(9, 10) =~= seq![(number % 128) as u8]);
        assert(var_int_bytes(number) =~= var_int_prefix(value as nat) + encoded@.subrange(9, 10));
    }
    while value != 0
        invariant
            position <= 9,
            value <= var_int_bound(position as nat),
            encoded@.len() == 10,
            var_int_bytes(number) == var_int_prefix(value as nat) + encoded@.subrange(position as int, 10),
        decreases value,
    {
        assert(position > 0) by {
            reveal_with_fuel(var_int_bound, 11);
        }
        let ghost quotient = value as nat;
        let ghost before = encoded@.subrange(position as int, 10);
        value = value - 1;
        position = position - 1;
        encoded[position] = 128 + (value % 128) as u8;
        value = value / 128;
        proof {
            let byte = (128 + (quotient - 1) % 128) as u8;
            assert(encoded@.subrange(position as int, 10) =~= seq![byte] + before);
            assert(var_int_prefix(quotient) == var_int_prefix(value as nat).push(byte));
            assert(var_int_prefix(quotient) + before =~= var_int_prefix(value as nat) + encoded@.subrange(
                position as int,
                10,
            ));
        }
    }
    write_bytes(out, vstd::slice::slice_subrange(encoded.as_slice(), position, 10));
    assert(var_int_prefix(0) + encoded@.subrange(position as int, 10) =~= encoded@.subrange(position as int, 10));
}

/// Append `stat` to `out`, or zeros if there is none.
pub fn write_stat(out: &mut Vec<u8>, stat: Option<&Stat>)
    ensures
        final(out)@ == old(out)@ + optional_stat_bytes(
            match stat {
                Some(stat) => Some(*stat),
                None => None,
            },
        ),
{
    let stat: Stat = match stat {
        Some(stat) => *stat,
        None => Stat::default(),
    };
    write_u32(out, stat.ctime.secs);
    write_u32(out, stat.ctime.nsecs);
    write_u32(out, stat.mtime.secs);
    write_u32(out, stat.mtime.nsecs);
    write_u32(out, stat.dev);
    write_u32(out, stat.ino);
    write_u32(out, stat.uid);
    write_u32(out, stat.gid);
    write_u32(out, stat.size);
    assert(out@ =~= old(out)@ + stat_bytes(stat));
}

/// Append `object_id` to `out`, or the null-id of `object_hash` if there is none.
pub fn write_object_id(out: &mut Vec<u8>, object_id: Option<ObjectId>, object_hash: Kind)
    ensures
        final(out)@ == old(out)@ + optional_id_bytes(
            match object_id {
                Some(id) => Some(id@),
                None => None,
            },
            object_hash,
        ),
{
    let object_id: ObjectId = match object_id {
        Some(id) => id,
        None => ObjectId::null(object_hash),
    };
    write_bytes(out, object_id.as_bytes());
}

/// Append `strings` to `out`, each terminated by a NUL byte.
fn write_strings(out: &mut Vec<u8>, strings: &Vec<Vec<u8>>)
    ensures
        final(out)@ == old(out)@ + strings_bytes(strings@.map_values(|string: Vec<u8>| string@)),
{
    let ghost views = strings@.map_values(|string: Vec<u8>| string@);
    let mut index: usize = 0;
    assert(views.take(0) =~= Seq::empty());
    assert(out@ =~= old(out)@ + strings_bytes(views.take(0)));
    while index < strings.len()
        invariant
            index <= strings.len(),
            views == strings@.map_values(|string: Vec<u8>| string@),
            out@ == old(out)@ + strings_bytes(views.take(index as int)),
        decreases strings.len() - index,
    {
        write_bytes(out, strings[index].as_slice());
        out.push(0);
        proof {
            let next = views.take(index + 1);
            assert(next.drop_last() =~= views.take(index as int));
            assert(next.last() == strings@[index as int]@);
            assert(out@ =~= old(out)@ + strings_bytes(next));
        }
        index = index + 1;
    }
    assert(views.take(strings@.len() as int) =~= views);
}

/// Append what precedes the sub-directories of `directory` to `out`.
fn write_block_head(out: &mut Vec<u8>, directory: &Directory)
    ensures
        final(out)@ == old(out)@ + block_head_bytes(directory@),
{
    write_var_int(out, directory.untracked_entries.len());
    write_var_int(out, directory.sub_directories.len());
    write_bytes(out, directory.name.as_slice());
    out.push(0);
    write_strings(out, &directory.untracked_entries);
    assert(out@ =~= old(out)@ + block_head_bytes(directory@));
}

impl UntrackedCache {
    /// Append the block of the directory at `index` to `out`, followed by those of its sub-directories in the order in
    /// which they are listed, or fail at the first directory that does not exist.
    pub fn write_directory(&self, out: &mut Vec<u8>, index: usize) -> (res: Result<(), WriteError>)
        ensures
            final(out)@ == old(out)@ + subtree_written(self@.directories, index as int).0,
            match res {
                Ok(()) => subtree_written(self@.directories, index as int).1,
                Err(err) => err == WriteError::InvalidDirectory && !subtree_written(self@.directories, index as int).1,
            },
    {
        proof {
            use_type_invariant(self);
        }
        self.write_nested_directory(out, index, Ghost(self@.directories.len()))
    }

    /// Append the block of the directory at `index` to `out`, within which no more than `depth` directories are nested.
    #[verifier::rlimit(40)]
    fn write_nested_directory(&self, out: &mut Vec<u8>, index: usize, Ghost(depth): Ghost<nat>) -> (res: Result<
        (),
        WriteError,
    >)
        requires
            nests_within(self@.directories, index as int, depth),
        ensures
            final(out)@ == old(out)@ + directory_written(self@.directories, index as int, depth).0,
            match res {
                Ok(()) => directory_written(self@.directories, index as int, depth).1,
                Err(err) => err == WriteError::InvalidDirectory && !directory_written(
                    self@.directories,
                    index as int,
                    depth,
                ).1,
            },
        decreases depth,
    {
        let ghost directories = self@.directories;
        if index >= self.directories.len() {
            assert(out@ =~= old(out)@ + directory_written(directories, index as int, depth).0);
            return Err(WriteError::InvalidDirectory);
        }
        let directory: &Directory = &self.directories[index];
        assert(directory@ == directories[index as int]);
        let ghost children = directory.sub_directories@;
        let ghost (below, complete) = children_written(directories, children, (depth - 1) as nat);
        write_block_head(out, directory);
        let ghost start = out@;
        let ghost mut written: Seq<u8> = Seq::empty();
        let mut position: usize = 0;
        proof {
            assert(children.skip(0) =~= children);
            assert(written + below =~= below);
            assert(start + written =~= start);
        }
        while position < directory.sub_directories.len()
            invariant
                depth > 0,
                directories == self@.directories,
                position <= children.len(),
                children == directory.sub_directories@,
                children == directories[index as int].sub_directories,
                0 <= index < directories.len(),
                nests_within(directories, index as int, depth),
                start == old(out)@ + block_head_bytes(directories[index as int]),
                (below, complete) == children_written(directories, children, (depth - 1) as nat),
                out@ == start + written,
                ({
                    let (rest, rest_complete) = children_written(
                        directories,
                        children.skip(position as int),
                        (depth - 1) as nat,
                    );
                    below == written + rest && complete == rest_complete
                }),
            decreases children.len() - position,
        {
            let ghost rest = children.skip(position as int);
            let child: usize = directory.sub_directories[position];
            let ghost added = directory_written(directories, child as int, (depth - 1) as nat).0;
            let ghost before = written;
            proof {
                assert(rest[0] == child);
                assert(rest.drop_first() =~= children.skip(position + 1));
                assert(directories[index as int].sub_directories[position as int] == child);
                written = written + added;
            }
            match self.write_nested_directory(out, child, Ghost((depth - 1) as nat)) {
                Ok(()) => {},
                Err(err) => {
                    assert(out@ =~= old(out)@ + (block_head_bytes(directories[index as int]) + below));
                    return Err(err);
                },
            }
            proof {
                let others = children_written(directories, rest.drop_first(), (depth - 1) as nat).0;
                assert(before + (added + others) =~= written + others);
                assert(out@ =~= start + written);
            }
            position = position + 1;
        }
        proof {
            assert(children.skip(children.len() as int) =~= Seq::empty());
            assert(out@ =~= old(out)@ + (block_head_bytes(directories[index as int]) + below));
        }
        Ok(())
    }

    /// Append all that precedes the directories to `out`, with object ids of `object_hash`.
    #[verifier::rlimit(40)]
    fn write_header(&self, out: &mut Vec<u8>, object_hash: Kind)
        ensures
            final(out)@ == old(out)@ + header_bytes(self@, object_hash),
    {
        let (info_exclude_stat, info_exclude_id): (Option<&Stat>, Option<ObjectId>) = match &self.info_exclude {
            Some(file) => (Some(&file.stat), Some(file.id)),
            None => (None, None),
        };
        let (excludes_file_stat, excludes_file_id): (Option<&Stat>, Option<ObjectId>) = match &self.excludes_file {
            Some(file) => (Some(&file.stat), Some(file.id)),
            None => (None, None),
        };
        write_var_int(out, self.identifier.len());
        write_bytes(out, self.identifier.as_slice());
        write_stat(out, info_exclude_stat);
        write_stat(out, excludes_file_stat);
        write_u32(out, self.dir_flags);
        write_object_id(out, info_exclude_id, object_hash);
        write_object_id(out, excludes_file_id, object_hash);
        write_bytes(out, self.exclude_filename_per_dir.as_slice());
        out.push(0);
        write_var_int(out, self.directories.len());
        assert(out@ =~= old(out)@ + header_bytes(self@, object_hash));
    }

    /// Append the bitmaps that tell which attributes directories have to `out`, or fail if there are too many
    /// directories.
    #[verifier::rlimit(40)]
    fn write_bitmaps(&self, out: &mut Vec<u8>) -> (res: Result<(), WriteError>)
        ensures
            match res {
                Ok(()) => self@.directories.len() <= u32::MAX && final(out)@ == old(out)@ + bitmaps_bytes(
                    self@.directories,
                ) && walks_are_known(self@.directories),
                Err(err) => err == WriteError::BitmapTooLarge && self@.directories.len() > u32::MAX,
            },
    {
        let ghost directories = self@.directories;
        let mut valid: Vec<bool> = Vec::new();
        let mut check_only: Vec<bool> = Vec::new();
        let mut hash_valid: Vec<bool> = Vec::new();
        let mut index: usize = 0;
        while index < self.directories.len()
            invariant
                index <= self.directories.len(),
                directories == directory_views(self.directories@),
                valid@ == valid_bits(directories).take(index as int),
                check_only@ == check_only_bits(directories).take(index as int),
                hash_valid@ == hash_valid_bits(directories).take(index as int),
            decreases self.directories.len() - index,
        {
            let directory: &Directory = &self.directories[index];
            assert(directory@ == directories[index as int]);
            valid.push(directory.stat.is_some());
            check_only.push(directory.check_only);
            hash_valid.push(directory.exclude_file_oid.is_some());
            index = index + 1;
            assert(valid@ =~= valid_bits(directories).take(index as int));
            assert(check_only@ =~= check_only_bits(directories).take(index as int));
            assert(hash_valid@ =~= hash_valid_bits(directories).take(index as int));
        }
        assert(valid@ =~= valid_bits(directories));
        assert(check_only@ =~= check_only_bits(directories));
        assert(hash_valid@ =~= hash_valid_bits(directories));
        write_bits(out, valid.as_slice())?;
        write_bits(out, check_only.as_slice())?;
        write_bits(out, hash_valid.as_slice())?;
        assert(out@ =~= old(out)@ + bitmaps_bytes(directories));
        Ok(())
    }

    /// Append the stat information of all directories that have it to `out`.
    fn write_stats(&self, out: &mut Vec<u8>)
        ensures
            final(out)@ == old(out)@ + present_bytes(stat_values(self@.directories)),
    {
        let ghost values = stat_values(self@.directories);
        let mut index: usize = 0;
        assert(out@ =~= old(out)@ + present_bytes(values.take(0)));
        while index < self.directories.len()
            invariant
                index <= self.directories.len(),
                values == stat_values(directory_views(self.directories@)),
                out@ == old(out)@ + present_bytes(values.take(index as int)),
            decreases self.directories.len() - index,
        {
            let directory: &Directory = &self.directories[index];
            proof {
                let next = values.take(index + 1);
                assert(next.drop_last() =~= values.take(index as int));
                assert(next.last() == values[index as int]);
            }
            if let Some(stat) = &directory.stat {
                write_stat(out, Some(stat));
            }
            index = index + 1;
            assert(out@ =~= old(out)@ + present_bytes(values.take(index as int)));
        }
        assert(values.take(index as int) =~= values);
    }

    /// Append the ids of the exclude files of all directories that have one to `out`.
    fn write_oids(&self, out: &mut Vec<u8>, object_hash: Kind)
        ensures
            final(out)@ == old(out)@ + present_bytes(oid_values(self@.directories)),
    {
        let ghost values = oid_values(self@.directories);
        let mut index: usize = 0;
        assert(out@ =~= old(out)@ + present_bytes(values.take(0)));
        while index < self.directories.len()
            invariant
                index <= self.directories.len(),
                values == oid_values(directory_views(self.directories@)),
                out@ == old(out)@ + present_bytes(values.take(index as int)),
            decreases self.directories.len() - index,
        {
            let directory: &Directory = &self.directories[index];
            proof {
                let next = values.take(index + 1);
                assert(next.drop_last() =~= values.take(index as int));
                assert(next.last() == values[index as int]);
            }
            if let Some(object_id) = directory.exclude_file_oid {
                write_object_id(out, Some(object_id), object_hash);
            }
            index = index + 1;
            assert(out@ =~= old(out)@ + present_bytes(values.take(index as int)));
        }
        assert(values.take(index as int) =~= values);
    }

    /// Append the extension to `out`, with object ids of `object_hash`, or fail without a change if it is too large, or
    /// if a directory refers to a sub-directory that does not exist.
    ///
    /// Decoding what was written gives back this cache, as long as the format can tell its parts from each other.
    #[verifier::rlimit(40)]
    pub fn write_to(&self, out: &mut Vec<u8>, object_hash: Kind) -> (res: Result<(), WriteError>)
        ensures
            match res {
                Ok(()) => {
                    &&& is_complete(self@.directories)
                    &&& self@.directories.len() <= u32::MAX
                    &&& cache_bytes(self@, object_hash).len() <= u32::MAX
                    &&& final(out)@ == old(out)@ + framed(SIGNATURE, cache_bytes(self@, object_hash))
                },
                Err(WriteError::InvalidDirectory) => !is_complete(self@.directories) && final(out)@ == old(out)@,
                Err(WriteError::BitmapTooLarge) => is_complete(self@.directories) && self@.directories.len() > u32::MAX
                    && final(out)@ == old(out)@,
                Err(WriteError::ExtensionTooLarge) => is_complete(self@.directories) && self@.directories.len()
                    <= u32::MAX && cache_bytes(self@, object_hash).len() > u32::MAX && final(out)@ == old(out)@,
            },
            res is Ok && is_readable(self@, object_hash) ==> cache_parsed(
                cache_bytes(self@, object_hash),
                object_hash,
                None,
            ) == Some(self@),
    {
        let mut payload: Vec<u8> = Vec::new();
        self.write_header(&mut payload, object_hash);
        if self.directories.len() > 0 {
            self.write_directory(&mut payload, 0)?;
            self.write_bitmaps(&mut payload)?;
            self.write_stats(&mut payload);
            self.write_oids(&mut payload, object_hash);
            payload.push(0);
        }
        assert(payload@ =~= cache_bytes(self@, object_hash));
        proof {
            if payload@.len() <= u32::MAX && is_readable(self@, object_hash) {
                lemma_cache_read(self@, object_hash);
            }
        }
        write_extension(out, SIGNATURE, payload.as_slice())
    }
}

/// Append a bitmap that holds `bits` to `out`, or fail if there are too many of them.
fn write_bits(out: &mut Vec<u8>, bits: &[bool]) -> (res: Result<(), WriteError>)
    ensures
        match res {
            Ok(()) => bits@.len() <= u32::MAX && final(out)@ == old(out)@ + literal_bitmap(bits@).encoded()
                && walk_is_known(bits@),
            Err(err) => err == WriteError::BitmapTooLarge && bits@.len() > u32::MAX,
        },
{
    match bitmap_from_bits(bits) {
        Some(bitmap) => {
            if write_bitmap(&bitmap, out) {
                Ok(())
            } else {
                Err(WriteError::BitmapTooLarge)
            }
        },
        None => Err(WriteError::BitmapTooLarge),
    }
}

} // verus!
