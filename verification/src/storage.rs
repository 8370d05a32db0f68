//! Storage keys and the on-disk layout of artifacts.
use vstd::prelude::*;
use vstd::string::*;
use crate::error::AppError;
use crate::path::{
    directory_below, directory_of, lemma_file_lies_in_its_directory, key_components, lemma_components_are_names, lemma_joined_names_stay, normalized_key,
    resolve_below, resolved_path, root_prefix, stays_in_store,
};

verus! {

broadcast use vstd::string::group_string_axioms;

/// Strongly-typed key naming an artifact's location inside a store.
#[derive(Debug, Clone, PartialEq, Eq)]
pub struct StoreKey {
    path: String,
}

impl View for StoreKey {
    type V = Seq<char>;

    closed spec fn view(&self) -> Seq<char> {
        self.path@
    }
}

impl StoreKey {
    /// Creates a key from its path text.
    pub fn new(path: String) -> (key: Self)
        ensures
            key@ == path@,
    {
        StoreKey { path }
    }

    /// The path text of the key.
    pub fn as_str(&self) -> (s: &str)
        ensures
            s@ == self@,
    {
        self.path.as_str()
    }
}

/// A storage backend that keeps artifacts as files below a root directory.
#[derive(Debug, Clone)]
pub struct LocalDiskStore {
    base_dir: String,
}

impl View for LocalDiskStore {
    type V = Seq<char>;

    /// The root directory of the store.
    closed spec fn view(&self) -> Seq<char> {
        self.base_dir@
    }
}

impl LocalDiskStore {
    /// Creates a store rooted at `base_dir`.
    pub fn new(base_dir: String) -> (store: Self)
        ensures
            store@ == base_dir@,
    {
        LocalDiskStore { base_dir }
    }

    /// The file that holds the artifact named by `key`: always a path
    /// within the root. The key is read as a relative path whose `.` and
    /// `..` components are resolved lexically, so it can neither start over
    /// at `/` nor climb above the root.
    pub fn resolve_path(&self, key: &StoreKey) -> (path: String)
        ensures
            path@ == resolved_path(self@, key@),
            root_prefix(self@).is_prefix_of(path@),
            stays_in_store(normalized_key(key@)),
    {
        proof {
            lemma_components_are_names(key@);
            lemma_joined_names_stay(key_components(key@));
            let r = root_prefix(self@);
            assert(resolved_path(self@, key@).subrange(0, r.len() as int) =~= r);
        }
        resolve_below(self.base_dir.as_str(), key.as_str())
    }

    /// The directory that must exist before the artifact named by `key` can
    /// be written: the root followed by every component of the key but the
    /// last.
    pub fn artifact_dir(&self, key: &StoreKey) -> (dir: String)
        ensures
            dir@ == directory_of(self@, key@),
            root_prefix(self@).is_prefix_of(dir@),
            dir@.is_prefix_of(resolved_path(self@, key@)),
    {
        proof {
            lemma_file_lies_in_its_directory(self@, key@);
        }
        directory_below(self.base_dir.as_str(), key.as_str())
    }
}


/// The outcome of one file-system operation.
#[derive(Debug)]
pub enum FsOutcome<T> {
    /// The operation succeeded with this value.
    Done(T),
    /// The operation failed; `not_found` tells whether the failure was that
    /// the file or directory does not exist.
    Failed { error: std::io::Error, not_found: bool },
}

/// A file's modification time as the platform reports it.
#[derive(Debug, Clone, Copy)]
pub enum ModifiedTime {
    /// The platform does not record modification times.
    Unavailable,
    /// A time before the Unix epoch.
    BeforeEpoch,
    /// Whole seconds since the Unix epoch.
    Since(u64),
}

/// The timestamp a stored artifact carries: whole seconds since the Unix
/// epoch, `None` for a time before the epoch. Where the platform records no
/// modification time the epoch itself stands in.
pub open spec fn artifact_timestamp(t: ModifiedTime) -> Option<u64> {
    match t {
        ModifiedTime::Unavailable => Some(0),
        ModifiedTime::BeforeEpoch => None,
        ModifiedTime::Since(s) => Some(s),
    }
}

/// A file modified `secs` seconds after the epoch carries exactly that
/// timestamp, whatever `secs` is; a platform without modification times
/// gives the epoch itself, and only a time before the epoch gives none.
pub proof fn lemma_timestamp_is_the_files_own(secs: u64)
    ensures
        artifact_timestamp(ModifiedTime::Since(secs)) == Some(secs),
        artifact_timestamp(ModifiedTime::Unavailable) == Some(0u64),
        artifact_timestamp(ModifiedTime::BeforeEpoch) == None::<u64>,
        forall|a: u64, b: u64|
            artifact_timestamp(ModifiedTime::Since(a)) == artifact_timestamp(ModifiedTime::Since(b))
                ==> a == b,
{
}

/// An artifact as read back from a store.
#[derive(Debug)]
pub struct StoredArtifact {
    /// Its content.
    pub data: Vec<u8>,
    /// When it was last written: whole seconds since the Unix epoch, `None`
    /// for a time before the epoch.
    pub modified: Option<u64>,
}

/// What a read does after looking up an artifact's metadata.
#[derive(Debug, Clone, Copy)]
pub enum ReadPlan {
    /// Nothing is stored under the key.
    Absent,
    /// Read the file; it carries this timestamp.
    ReadFile { modified: Option<u64> },
}

impl LocalDiskStore {
    /// The result of a step of a write (creating the directories, writing
    /// the file): every failure is a storage error.
    pub fn put_step(outcome: FsOutcome<()>) -> (r: Result<(), AppError>)
        ensures
            match outcome {
                FsOutcome::Done(_) => r is Ok,
                FsOutcome::Failed { error, .. } => r == Err::<(), AppError>(AppError::IoError(error)),
            },
    {
        match outcome {
            FsOutcome::Done(_) => Ok(()),
            FsOutcome::Failed { error, .. } => Err(AppError::IoError(error)),
        }
    }

    /// What a read does once the metadata lookup is done: a missing file
    /// means nothing is stored, any other failure is a storage error.
    pub fn lookup_step(stat: FsOutcome<ModifiedTime>) -> (r: Result<ReadPlan, AppError>)
        ensures
            match stat {
                FsOutcome::Done(t) => r == Ok::<ReadPlan, AppError>(
                    ReadPlan::ReadFile { modified: artifact_timestamp(t) },
                ),
                FsOutcome::Failed { error, not_found } => if not_found {
                    r == Ok::<ReadPlan, AppError>(ReadPlan::Absent)
                } else {
                    r == Err::<ReadPlan, AppError>(AppError::IoError(error))
                },
            },
            stat matches FsOutcome::Done(ModifiedTime::Since(secs)) ==> r == Ok::<
                ReadPlan,
                AppError,
            >(ReadPlan::ReadFile { modified: Some(secs) }),
            stat matches FsOutcome::Done(ModifiedTime::Unavailable) ==> r == Ok::<
                ReadPlan,
                AppError,
            >(ReadPlan::ReadFile { modified: Some(0) }),
            stat matches FsOutcome::Done(ModifiedTime::BeforeEpoch) ==> r == Ok::<
                ReadPlan,
                AppError,
            >(ReadPlan::ReadFile { modified: None }),
    {
        match stat {
            FsOutcome::Done(t) => {
                let modified = match t {
                    ModifiedTime::Unavailable => Some(0),
                    ModifiedTime::BeforeEpoch => None,
                    ModifiedTime::Since(s) => Some(s),
                };
                Ok(ReadPlan::ReadFile { modified })
            },
            FsOutcome::Failed { error, not_found } => {
                if not_found {
                    Ok(ReadPlan::Absent)
                } else {
                    Err(AppError::IoError(error))
                }
            },
        }
    }

    /// The result of reading an artifact's file: its content with the
    /// timestamp, or a storage error for any failure.
    pub fn read_step(read: FsOutcome<Vec<u8>>, modified: Option<u64>) -> (r: Result<
        StoredArtifact,
        AppError,
    >)
        ensures
            match read {
                FsOutcome::Done(data) => r == Ok::<StoredArtifact, AppError>(
                    StoredArtifact { data, modified },
                ),
                FsOutcome::Failed { error, .. } => r == Err::<StoredArtifact, AppError>(
                    AppError::IoError(error),
                ),
            },
    {
        match read {
            FsOutcome::Done(data) => Ok(StoredArtifact { data, modified }),
            FsOutcome::Failed { error, .. } => Err(AppError::IoError(error)),
        }
    }

    /// The result of removing an artifact's file: a file that does not exist
    /// counts as removed, any other failure is a storage error.
    pub fn delete_step(outcome: FsOutcome<()>) -> (r: Result<(), AppError>)
        ensures
            match outcome {
                FsOutcome::Done(_) => r is Ok,
                FsOutcome::Failed { error, not_found } => if not_found {
                    r is Ok
                } else {
                    r == Err::<(), AppError>(AppError::IoError(error))
                },
            },
    {
        match outcome {
            FsOutcome::Done(_) => Ok(()),
            FsOutcome::Failed { error, not_found } => {
                if not_found {
                    Ok(())
                } else {
                    Err(AppError::IoError(error))
                }
            },
        }
    }
}

} // verus!
