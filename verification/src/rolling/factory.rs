//! Naming and rotation of the files of a rolling writer.

use vstd::prelude::*;
use std::collections::VecDeque;
use vstd::string::StringExecFns;
use crate::rolling::time::{SystemTime, push_padded, spec_padded, format_utc_timestamp, spec_utc_timestamp};
use crate::rolling::types::SplitContext;

verus! {

/// The path of `name` inside the directory `dir`: an absolute `name` stands
/// alone; otherwise a `/` separates the two unless `dir` is empty or already
/// ends with one.
pub open spec fn spec_join(dir: Seq<char>, name: Seq<char>) -> Seq<char> {
    if name.len() > 0 && name[0] == '/' {
        name
    } else if dir.len() == 0 {
        name
    } else if dir.last() == '/' {
        dir + name
    } else {
        dir + seq!['/'] + name
    }
}

/// The path of `name` inside the directory `dir`.
pub fn join_path(dir: &str, name: &str) -> (r: String)
    ensures
        r@ == spec_join(dir@, name@),
{
    let name_len = name.unicode_len();
    if name_len > 0 && name.get_char(0) == '/' {
        return name.to_owned();
    }
    let dir_len = dir.unicode_len();
    let mut out = dir.to_owned();
    if dir_len > 0 && dir.get_char(dir_len - 1) != '/' {
        proof { reveal_strlit("/"); }
        out.append("/");
    }
    out.append(name);
    out
}

/// Shared file-rotation state for filesystem-based factories: where files go,
/// how many to keep, and the files created so far, oldest first.
pub struct FileRotationBase {
    directory: String,
    prefix: String,
    max_files: Option<usize>,
    created_files: VecDeque<String>,
}

impl FileRotationBase {
    /// Rotation in `directory` for files named after `prefix`, keeping every file.
    pub fn new(directory: &str, prefix: &str) -> (r: FileRotationBase)
        ensures
            r.directory() == directory@,
            r.prefix() == prefix@,
            r.max_files() is None,
            r.created() == Seq::<Seq<char>>::empty(),
    {
        let r = FileRotationBase {
            directory: directory.to_owned(),
            prefix: prefix.to_owned(),
            max_files: None,
            created_files: VecDeque::new(),
        };
        assert(r.created() =~= Seq::<Seq<char>>::empty());
        r
    }

    /// The directory files are created in.
    pub closed spec fn directory(&self) -> Seq<char> {
        self.directory@
    }

    /// The prefix of every file name.
    pub closed spec fn prefix(&self) -> Seq<char> {
        self.prefix@
    }

    /// How many files are kept, if limited.
    pub closed spec fn max_files(&self) -> Option<usize> {
        self.max_files
    }

    /// Paths of the files created and not yet evicted, oldest first.
    pub closed spec fn created(&self) -> Seq<Seq<char>> {
        Seq::new(self.created_files@.len(), |i: int| self.created_files@[i]@)
    }

    /// The directory files are created in.
    pub fn directory_str(&self) -> (r: &str)
        ensures
            r@ == self.directory(),
    {
        self.directory.as_str()
    }

    /// Keep at most `max` files.
    pub fn set_max_files(&mut self, max: usize)
        ensures
            final(self).max_files() == Some(max),
            final(self).directory() == old(self).directory(),
            final(self).prefix() == old(self).prefix(),
            final(self).created() == old(self).created(),
    {
        self.max_files = Some(max);
    }

    /// Remember a file just created.
    pub fn record_created(&mut self, path: String)
        ensures
            final(self).created() == old(self).created().push(path@),
            final(self).max_files() == old(self).max_files(),
            final(self).directory() == old(self).directory(),
            final(self).prefix() == old(self).prefix(),
    {
        self.created_files.push_back(path);
        assert(self.created() =~= old(self).created().push(path@));
    }

    /// The oldest file to delete now, if more files are kept than allowed;
    /// it is forgotten. Call until it returns `None`, deleting each.
    pub fn next_eviction(&mut self) -> (r: Option<String>)
        ensures
            final(self).max_files() == old(self).max_files(),
            final(self).directory() == old(self).directory(),
            final(self).prefix() == old(self).prefix(),
            match old(self).max_files() {
                Some(max) if old(self).created().len() > max => {
                    &&& r matches Some(p) && p@ == old(self).created()[0]
                    &&& final(self).created() == old(self).created().drop_first()
                },
                _ => r is None && final(self).created() == old(self).created(),
            },
    {
        match self.max_files {
            Some(max) => {
                if self.created_files.len() > max {
                    let r = self.created_files.pop_front();
                    assert(self.created() =~= old(self).created().drop_first());
                    r
                } else {
                    None
                }
            },
            None => None,
        }
    }
}

/// The name of the `index`-th sequential file: `prefix_NNNNNN.mcap`.
pub open spec fn spec_sequential_name(prefix: Seq<char>, index: nat) -> Seq<char> {
    prefix + seq!['_'] + spec_padded(index, 6) + ".mcap"@
}

/// The name of a file opened at second `secs` after the epoch: `prefix_YYYYMMDDTHHMMSSZ.mcap`.
pub open spec fn spec_timestamp_name(prefix: Seq<char>, secs: nat) -> Seq<char> {
    prefix + seq!['_'] + spec_utc_timestamp(secs) + ".mcap"@
}

/// A sink factory that creates sequentially numbered files in a directory:
/// `prefix_000000.mcap`, `prefix_000001.mcap`, ...
pub struct SequentialFiles {
    /// The rotation state.
    pub base: FileRotationBase,
}

impl SequentialFiles {
    /// Create a factory that writes files to `directory` with the given `prefix`.
    pub fn new(directory: &str, prefix: &str) -> (r: SequentialFiles)
        ensures
            r.base.directory() == directory@,
            r.base.prefix() == prefix@,
            r.base.max_files() is None,
            r.base.created() == Seq::<Seq<char>>::empty(),
    {
        SequentialFiles { base: FileRotationBase::new(directory, prefix) }
    }

    /// Set the maximum number of files to keep. When exceeded, the oldest file is deleted.
    pub fn max_files(self, max: usize) -> (r: SequentialFiles)
        ensures
            r.base.max_files() == Some(max),
            r.base.directory() == self.base.directory(),
            r.base.prefix() == self.base.prefix(),
            r.base.created() == self.base.created(),
    {
        let mut s = self;
        s.base.set_max_files(max);
        s
    }

    /// The path of the file with the given index.
    pub fn path_for_index(&self, index: usize) -> (r: String)
        ensures
            r@ == spec_join(self.base.directory(), spec_sequential_name(self.base.prefix(), index as nat)),
    {
        let mut name = self.base.prefix.clone();
        proof { reveal_strlit("_"); reveal_strlit(".mcap"); }
        name.append("_");
        push_padded(&mut name, index as u64, 6);
        name.append(".mcap");
        join_path(self.base.directory.as_str(), name.as_str())
    }

    /// The path of the file to create for `context`.
    pub fn path_for(&self, context: &SplitContext) -> (r: String)
        ensures
            r@ == spec_join(self.base.directory(), spec_sequential_name(self.base.prefix(), context.file_index as nat)),
    {
        self.path_for_index(context.file_index)
    }
}

/// A sink factory that names files using UTC timestamps: `prefix_20260330T143022Z.mcap`.
pub struct TimestampFiles {
    /// The rotation state.
    pub base: FileRotationBase,
}

impl TimestampFiles {
    /// Create a factory that writes timestamp-named files to `directory` with the given `prefix`.
    pub fn new(directory: &str, prefix: &str) -> (r: TimestampFiles)
        ensures
            r.base.directory() == directory@,
            r.base.prefix() == prefix@,
            r.base.max_files() is None,
            r.base.created() == Seq::<Seq<char>>::empty(),
    {
        TimestampFiles { base: FileRotationBase::new(directory, prefix) }
    }

    /// Set the maximum number of files to keep. When exceeded, the oldest file is deleted.
    pub fn max_files(self, max: usize) -> (r: TimestampFiles)
        ensures
            r.base.max_files() == Some(max),
            r.base.directory() == self.base.directory(),
            r.base.prefix() == self.base.prefix(),
            r.base.created() == self.base.created(),
    {
        let mut s = self;
        s.base.set_max_files(max);
        s
    }

    /// The path of the file opened at `time`.
    pub fn path_for_time(&self, time: SystemTime) -> (r: String)
        ensures
            r@ == spec_join(self.base.directory(), spec_timestamp_name(self.base.prefix(), time@ / 1_000_000_000)),
    {
        let mut name = self.base.prefix.clone();
        proof { reveal_strlit("_"); reveal_strlit(".mcap"); }
        name.append("_");
        let ts = format_utc_timestamp(time);
        name.append(ts.as_str());
        name.append(".mcap");
        join_path(self.base.directory.as_str(), name.as_str())
    }

    /// The path of the file to create for `context`.
    pub fn path_for(&self, context: &SplitContext) -> (r: String)
        ensures
            r@ == spec_join(self.base.directory(), spec_timestamp_name(self.base.prefix(), context.split_time@ / 1_000_000_000)),
    {
        self.path_for_time(context.split_time)
    }
}

/// A sink factory backed by a user-provided closure.
pub struct FnSinkFactory<F> {
    create_fn: F,
}

impl<F> FnSinkFactory<F> {
    /// Create a sink factory from a closure.
    pub fn new(create_fn: F) -> (r: FnSinkFactory<F>)
        ensures
            r.create_fn() == create_fn,
    {
        FnSinkFactory { create_fn }
    }

    /// The closure that creates sinks.
    pub closed spec fn create_fn(&self) -> F {
        self.create_fn
    }

    /// Create the sink for `context` by calling the closure.
    pub fn create_sink<R>(&mut self, context: &SplitContext) -> (r: R)
        where
            F: FnMut(&SplitContext) -> R,
        requires
            call_requires(old(self).create_fn(), (context,)),
        ensures
            call_ensures(old(self).create_fn(), (context,), r),
    {
        (self.create_fn)(context)
    }
}

} // verus!
