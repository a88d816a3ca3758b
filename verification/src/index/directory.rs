//! Where indexes are kept.

use vstd::prelude::*;

use crate::error::{LockError, OpenReadError};
use crate::index::meta::{IndexMeta, MetaView, SegmentFile};

verus! {

/// What the file that describes an index holds, if it is there.
pub enum MetaFile {
    Absent,
    NotUtf8,
    Undecodable,
    Valid(MetaView),
}

/// What a file that describes an index was found to hold.
pub enum MetaContent {
    /// Bytes that are not text.
    NotUtf8,
    /// Text that does not describe an index.
    Undecodable,
    /// The description of an index.
    Valid(IndexMeta),
}

impl View for MetaContent {
    type V = MetaFile;

    open spec fn view(&self) -> MetaFile {
        match *self {
            MetaContent::NotUtf8 => MetaFile::NotUtf8,
            MetaContent::Undecodable => MetaFile::Undecodable,
            MetaContent::Valid(meta) => MetaFile::Valid(meta@),
        }
    }
}

/// The errors that the operations of a directory may fail with for reasons of the place itself.
pub struct Faults {
    /// Looking for the file that describes the index.
    pub meta_exists: Set<OpenReadError>,
    /// Reading it.
    pub read_meta: Set<OpenReadError>,
    /// Taking the lock for writing.
    pub lock: Set<LockError>,
    /// Listing the files of segments.
    pub list_files: Set<OpenReadError>,
    /// Reading one of them for its checksum.
    pub checksum: Set<OpenReadError>,
}

/// Nothing may go wrong.
pub open spec fn no_faults() -> Faults {
    Faults {
        meta_exists: Set::empty(),
        read_meta: Set::empty(),
        lock: Set::empty(),
        list_files: Set::empty(),
        checksum: Set::empty(),
    }
}

/// The contents of a directory, as far as an index looks at them, and what was done to it.
pub struct DirectoryState {
    /// The file that describes the index.
    pub meta: MetaFile,
    /// Someone holds the lock for writing.
    pub locked: bool,
    /// The files of segments.
    pub managed: Set<SegmentFile>,
    /// The files whose contents do not match their checksum.
    pub damaged: Set<SegmentFile>,
    /// How often the lock for writing has been taken.
    pub locks_taken: nat,
    /// How often the file that describes the index was written while nobody held the lock.
    pub unlocked_writes: nat,
    /// The file that describes the index has been made to last.
    pub meta_flushed: bool,
    /// What may go wrong.
    pub faults: Faults,
}

/// Nothing is in the directory, nothing was done to it, and nothing may go wrong.
pub open spec fn is_new(state: DirectoryState) -> bool {
    state == DirectoryState {
        meta: MetaFile::Absent,
        locked: false,
        managed: Set::empty(),
        damaged: Set::empty(),
        locks_taken: 0,
        unlocked_writes: 0,
        meta_flushed: true,
        faults: no_faults(),
    }
}

impl DirectoryState {
    /// The state after the lock was taken and given back once more.
    pub open spec fn after_lock(self) -> DirectoryState {
        DirectoryState { locks_taken: self.locks_taken + 1, ..self }
    }

    /// The state after the lock was taken once more, and is held.
    pub open spec fn with_lock(self) -> DirectoryState {
        DirectoryState { locked: true, ..self.after_lock() }
    }

    /// The state after the file that describes the index was replaced.
    pub open spec fn written(self, meta: MetaView) -> DirectoryState {
        DirectoryState {
            meta: MetaFile::Valid(meta),
            unlocked_writes: self.unlocked_writes + if self.locked {
                0nat
            } else {
                1nat
            },
            meta_flushed: false,
            ..self
        }
    }

    /// The state after what was written was made to last.
    pub open spec fn flushed(self) -> DirectoryState {
        DirectoryState { meta_flushed: true, ..self }
    }

    /// Taking the lock fails with `error`: someone holds it, or it is a matter of the place.
    pub open spec fn lock_fails(self, reliable: bool, error: LockError) -> bool {
        (self.locked && error == LockError::LockBusy) || (!reliable && self.faults.lock.contains(
            error,
        ))
    }

    /// `after` has the same files of segments or fewer, and nothing else has changed.
    pub open spec fn with_fewer_files(self, after: DirectoryState) -> bool {
        &&& after.managed.subset_of(self.managed)
        &&& after.damaged.subset_of(self.damaged)
        &&& after == DirectoryState { managed: after.managed, damaged: after.damaged, ..self }
    }
}

/// A place to keep an index in.
pub trait Directory: Sized {
    /// The contents.
    spec fn state(&self) -> DirectoryState;

    /// Nothing goes wrong for reasons of the place itself.
    spec fn reliable(&self) -> bool;

    /// There is a file that describes an index.
    fn meta_exists(&self) -> (result: Result<bool, OpenReadError>)
        ensures
            match result {
                Ok(exists) => exists == (self.state().meta !is Absent),
                Err(error) => !self.reliable() && self.state().faults.meta_exists.contains(error),
            },
    ;

    /// Reads the file that describes an index.
    fn read_meta(&self) -> (result: Result<MetaContent, OpenReadError>)
        ensures
            match result {
                Ok(content) => content@ == self.state().meta,
                Err(error) => {
                    ||| self.state().meta is Absent && error == OpenReadError::FileDoesNotExist
                    ||| !self.reliable() && self.state().faults.read_meta.contains(error)
                },
            },
    ;

    /// Replaces the file that describes an index, as a whole or not at all.
    fn write_meta(&mut self, meta: &IndexMeta) -> (result: Result<(), ()>)
        ensures
            final(self).reliable() == old(self).reliable(),
            match result {
                Ok(_) => final(self).state() == old(self).state().written(meta@),
                Err(_) => !old(self).reliable() && final(self).state() == old(self).state(),
            },
    ;

    /// Makes what was written last.
    fn sync_directory(&mut self) -> (result: Result<(), ()>)
        ensures
            final(self).reliable() == old(self).reliable(),
            match result {
                Ok(_) => final(self).state() == old(self).state().flushed(),
                Err(_) => !old(self).reliable() && final(self).state() == old(self).state(),
            },
    ;

    /// Takes the lock for writing.
    fn acquire_lock(&mut self) -> (result: Result<(), LockError>)
        ensures
            final(self).reliable() == old(self).reliable(),
            match result {
                Ok(_) => !old(self).state().locked && final(self).state()
                    == old(self).state().with_lock(),
                Err(error) => final(self).state() == old(self).state()
                    && old(self).state().lock_fails(old(self).reliable(), error),
            },
    ;

    /// Gives the lock for writing back.
    fn release_lock(&mut self)
        ensures
            final(self).reliable() == old(self).reliable(),
            final(self).state() == (DirectoryState { locked: false, ..old(self).state() }),
    ;

    /// Removes all files of segments.
    fn erase_segments(&mut self) -> (result: Result<(), ()>)
        ensures
            final(self).reliable() == old(self).reliable(),
            match result {
                Ok(_) => final(self).state() == (DirectoryState {
                    managed: Set::empty(),
                    damaged: Set::empty(),
                    ..old(self).state()
                }),
                Err(_) => !old(self).reliable() && old(self).state().with_fewer_files(
                    final(self).state(),
                ),
            },
    ;

    /// The files of segments.
    fn list_managed_files(&self) -> (result: Result<Vec<SegmentFile>, OpenReadError>)
        ensures
            match result {
                Ok(files) => files@.to_set() == self.state().managed,
                Err(error) => !self.reliable() && self.state().faults.list_files.contains(error),
            },
    ;

    /// The contents of a file match its checksum.
    fn validate_checksum(&self, file: SegmentFile) -> (result: Result<bool, OpenReadError>)
        requires
            self.state().managed.contains(file),
        ensures
            match result {
                Ok(intact) => intact == !self.state().damaged.contains(file),
                Err(error) => !self.reliable() && self.state().faults.checksum.contains(error),
            },
    ;
}

/// A file of a segment in memory.
#[derive(Clone, Copy, Debug, PartialEq, Eq, Structural)]
pub struct RamFile {
    pub file: SegmentFile,
    /// Its contents match its checksum.
    pub intact: bool,
}

/// A directory in memory.
pub struct RamDirectory {
    meta: Option<IndexMeta>,
    locked: bool,
    files: Vec<RamFile>,
    locks_taken: Ghost<nat>,
    unlocked_writes: Ghost<nat>,
    meta_flushed: Ghost<bool>,
}

/// `file` is among `files`.
pub open spec fn holds_file(files: Seq<RamFile>, file: SegmentFile) -> bool {
    exists|i: int| 0 <= i < files.len() && (#[trigger] files[i]).file == file
}

/// Some contents of `file` among `files` do not match their checksum.
pub open spec fn holds_damaged(files: Seq<RamFile>, file: SegmentFile) -> bool {
    exists|i: int| 0 <= i < files.len() && (#[trigger] files[i]).file == file && !files[i].intact
}

impl RamDirectory {
    /// An empty directory.
    pub fn create() -> (directory: RamDirectory)
        ensures
            is_new(directory.state()),
            directory.reliable(),
    {
        let directory = RamDirectory {
            meta: None,
            locked: false,
            files: Vec::new(),
            locks_taken: Ghost(0),
            unlocked_writes: Ghost(0),
            meta_flushed: Ghost(true),
        };
        assert(directory.state().managed =~= Set::empty());
        assert(directory.state().damaged =~= Set::empty());
        directory
    }

    /// Adds a file of a segment.
    pub fn add_file(&mut self, file: SegmentFile, intact: bool)
        ensures
            final(self).state() == (DirectoryState {
                managed: old(self).state().managed.insert(file),
                damaged: if intact {
                    old(self).state().damaged
                } else {
                    old(self).state().damaged.insert(file)
                },
                ..old(self).state()
            }),
            final(self).reliable() == old(self).reliable(),
    {
        let ghost before = self.files@;
        self.files.push(RamFile { file, intact });
        proof {
            let after = self.files@;
            assert(after[before.len() as int] == RamFile { file, intact });
            assert forall|other: SegmentFile| holds_file(after, other) <==> holds_file(before, other)
                || other == file by {
                if holds_file(before, other) {
                    let i = choose|i: int|
                        0 <= i < before.len() && (#[trigger] before[i]).file == other;
                    assert(after[i].file == other);
                }
                if holds_file(after, other) && other != file {
                    let i = choose|i: int|
                        0 <= i < after.len() && (#[trigger] after[i]).file == other;
                    assert(before[i].file == other);
                }
            }
            assert forall|other: SegmentFile| holds_damaged(after, other) <==> holds_damaged(
                before,
                other,
            ) || (other == file && !intact) by {
                if holds_damaged(before, other) {
                    let i = choose|i: int|
                        0 <= i < before.len() && (#[trigger] before[i]).file == other
                            && !before[i].intact;
                    assert(after[i].file == other);
                }
                if holds_damaged(after, other) {
                    let i = choose|i: int|
                        0 <= i < after.len() && (#[trigger] after[i]).file == other
                            && !after[i].intact;
                    if i < before.len() {
                        assert(before[i].file == other);
                    }
                }
            }
            assert(self.state().managed =~= old(self).state().managed.insert(file));
            assert(self.state().damaged =~= if intact {
                old(self).state().damaged
            } else {
                old(self).state().damaged.insert(file)
            });
        }
    }
}

impl Directory for RamDirectory {
    closed spec fn state(&self) -> DirectoryState {
        DirectoryState {
            meta: match self.meta {
                Some(meta) => MetaFile::Valid(meta@),
                None => MetaFile::Absent,
            },
            locked: self.locked,
            managed: Set::new(|file: SegmentFile| holds_file(self.files@, file)),
            damaged: Set::new(|file: SegmentFile| holds_damaged(self.files@, file)),
            locks_taken: self.locks_taken@,
            unlocked_writes: self.unlocked_writes@,
            meta_flushed: self.meta_flushed@,
            faults: no_faults(),
        }
    }

    closed spec fn reliable(&self) -> bool {
        true
    }

    fn meta_exists(&self) -> (result: Result<bool, OpenReadError>) {
        Ok(self.meta.is_some())
    }

    fn read_meta(&self) -> (result: Result<MetaContent, OpenReadError>) {
        match &self.meta {
            Some(meta) => Ok(MetaContent::Valid(meta.clone())),
            None => Err(OpenReadError::FileDoesNotExist),
        }
    }

    fn write_meta(&mut self, meta: &IndexMeta) -> (result: Result<(), ()>) {
        self.meta = Some(meta.clone());
        self.meta_flushed = Ghost(false);
        self.unlocked_writes = Ghost(
            self.unlocked_writes@ + if self.locked {
                0nat
            } else {
                1nat
            },
        );
        Ok(())
    }

    fn sync_directory(&mut self) -> (result: Result<(), ()>) {
        self.meta_flushed = Ghost(true);
        Ok(())
    }

    fn acquire_lock(&mut self) -> (result: Result<(), LockError>) {
        if self.locked {
            return Err(LockError::LockBusy);
        }
        self.locked = true;
        self.locks_taken = Ghost(self.locks_taken@ + 1);
        Ok(())
    }

    fn release_lock(&mut self) {
        self.locked = false;
    }

    fn erase_segments(&mut self) -> (result: Result<(), ()>) {
        self.files = Vec::new();
        assert(self.state().managed =~= Set::empty());
        assert(self.state().damaged =~= Set::empty());
        Ok(())
    }

    fn list_managed_files(&self) -> (result: Result<Vec<SegmentFile>, OpenReadError>) {
        let mut files: Vec<SegmentFile> = Vec::new();
        let mut next: usize = 0;
        while next < self.files.len()
            invariant
                next <= self.files@.len(),
                files@.len() == next,
                forall|i: int| 0 <= i < next ==> #[trigger] files@[i] == self.files@[i].file,
            decreases self.files@.len() - next,
        {
            files.push(self.files[next].file);
            next = next + 1;
        }
        proof {
            assert forall|file: SegmentFile| files@.to_set().contains(file)
                <==> self.state().managed.contains(file) by {
                if files@.contains(file) {
                    let i = choose|i: int| 0 <= i < files@.len() && files@[i] == file;
                    assert(self.files@[i].file == file);
                }
                if holds_file(self.files@, file) {
                    let i = choose|i: int|
                        0 <= i < self.files@.len() && (#[trigger] self.files@[i]).file == file;
                    assert(files@[i] == file);
                }
            }
            assert(files@.to_set() =~= self.state().managed);
        }
        Ok(files)
    }

    fn validate_checksum(&self, file: SegmentFile) -> (result: Result<bool, OpenReadError>) {
        let mut next: usize = 0;
        while next < self.files.len()
            invariant
                next <= self.files@.len(),
                forall|i: int|
                    0 <= i < next ==> (#[trigger] self.files@[i]).file != file
                        || self.files@[i].intact,
            decreases self.files@.len() - next,
        {
            let candidate: RamFile = self.files[next];
            if candidate.file == file && !candidate.intact {
                assert(self.files@[next as int].file == file);
                assert(holds_damaged(self.files@, file));
                return Ok(false);
            }
            next = next + 1;
        }
        assert(!holds_damaged(self.files@, file));
        Ok(true)
    }
}

} // verus!
