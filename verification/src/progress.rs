use vstd::prelude::*;

verus! {

/// Progress reported while building documentation, compressing a chest
/// or extracting one. Emitted by the core and by external builders;
/// front ends render them.
pub enum ProgressEvent {
    /// A raw line of output from a build.
    Output(String),
    /// A package is being downloaded.
    DownloadPackage(String),
    /// A package is being installed.
    InstallPackage(String),
    /// A source repository is being downloaded.
    DownloadSource(String),
    /// A build is running: description, steps done, total steps.
    Build(String, u64, u64),
    /// A named action is running.
    Action(String),
    /// A chest is being compressed: bytes done, total bytes.
    CompressChest(u64, u64),
    /// A chest is being extracted: bytes done, total bytes.
    ExtractChest(u64, u64),
}

} // verus!
