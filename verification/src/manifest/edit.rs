//! Manifest edits and the files they track.
use vstd::prelude::*;

verus! {

/// What a manifest edit does.
#[derive(Clone, Copy, Debug, PartialEq, Eq, Structural)]
pub enum ManifestEditKind {
    AddFile,
    RemoveFile,
    InstallCheckpoint,
    StartCompaction,
    FinishCompaction,
    AbortCompaction,
    AdvanceWal,
}

/// A file the manifest tracks: its path, format and format version, its
/// checksum, and whether it can be recovered.
#[derive(Clone, Debug, PartialEq, Eq)]
pub struct ManifestTrackedFile {
    pub path: String,
    pub format: String,
    pub format_version: u16,
    pub checksum: String,
    pub recoverable: bool,
}

impl ManifestTrackedFile {
    /// A recoverable file.
    pub fn durable(path: &str, format: &str, format_version: u16, checksum: &str) -> (f: ManifestTrackedFile)
        ensures
            f.path@ == path@,
            f.format@ == format@,
            f.format_version == format_version,
            f.checksum@ == checksum@,
            f.recoverable,
    {
        ManifestTrackedFile {
            path: String::from_str(path),
            format: String::from_str(format),
            format_version,
            checksum: String::from_str(checksum),
            recoverable: true,
        }
    }
}

/// An edit at a sequence number, with the file it concerns, if any.
#[derive(Clone, Debug, PartialEq, Eq)]
pub struct ManifestEdit {
    pub sequence: u64,
    pub kind: ManifestEditKind,
    pub file: Option<ManifestTrackedFile>,
}

impl ManifestEdit {
    /// The edit that adds `file`.
    pub fn add_file(sequence: u64, file: ManifestTrackedFile) -> (e: ManifestEdit)
        ensures
            e.sequence == sequence,
            e.kind == ManifestEditKind::AddFile,
            e.file == Some(file),
    {
        ManifestEdit { sequence, kind: ManifestEditKind::AddFile, file: Some(file) }
    }
}

} // verus!
