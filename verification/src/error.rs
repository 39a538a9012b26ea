use vstd::prelude::*;

verus! {

/// Failure conditions surfaced by chest store and database operations.
#[derive(Clone, Copy, Debug, PartialEq, Eq, Structural)]
pub enum ChestError {
    /// A path component is empty or holds a character that is not allowed
    /// in file names.
    InvalidName,
    /// The requested path does not name a file or directory.
    NotFound,
    /// A path component that must be a directory is already a file, or the
    /// target of a file write is already a directory.
    TypeConflict,
    /// The backing archive bytes cannot be decoded.
    CorruptArchive,
    /// A file is marked as archive backed, but the chest holds no backing
    /// archive.
    MissingBackingArchive,
    /// A unified diff cannot be parsed or does not apply cleanly.
    PatchConflict,
    /// File contents were expected to be text but are not valid UTF-8.
    NotText,
    /// The chest manifest cannot be decoded.
    InvalidManifest,
    /// A version string given to a generator is not acceptable.
    InvalidVersion,
    /// An operating system input/output action failed.
    IoFailure,
    /// The platform user data directory cannot be determined.
    ConfigError,
}

} // verus!
