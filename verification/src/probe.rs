//! Outcomes of probing the files of a torrent on disk.
use std::path::PathBuf;
use vstd::prelude::*;

verus! {

/// Declares `std::path::PathBuf` so that probe entries can carry paths.
#[verifier::external_type_specification]
#[verifier::external_body]
pub struct ExPathBuf(PathBuf);

/// `PathBuf::clone`, called by the derived `Clone` of the probe entries; nothing is
/// claimed of the copy it returns.
pub assume_specification[ <PathBuf as Clone>::clone ](path: &PathBuf) -> PathBuf;

/// An error met while touching the storage of a torrent.
#[derive(Debug, Clone, PartialEq, Eq)]
pub enum StorageError {
    /// An I/O failure, with the operating system's message.
    Io(String),
}

/// One disk operation, as reported to observers.
#[derive(Debug, Clone, Copy)]
pub struct DiskIoOperation {
    pub piece_index: u32,
    pub offset: u64,
    pub length: usize,
}

/// A file of the manifest that failed its probe.
#[derive(Debug, Clone, PartialEq, Eq)]
pub struct FileProbeEntry {
    pub relative_path: PathBuf,
    pub absolute_path: PathBuf,
    pub error: StorageError,
    pub expected_size: u64,
    pub observed_size: Option<u64>,
}

/// The result of probing one batch of files.
#[derive(Debug, Clone, PartialEq, Eq)]
pub struct FileProbeBatchResult {
    pub epoch: u64,
    pub scanned_files: usize,
    pub next_file_index: usize,
    pub reached_end_of_manifest: bool,
    pub pending_metadata: bool,
    pub problem_files: Vec<FileProbeEntry>,
}

/// Whether the data of a torrent is known to be available after a probe batch:
/// unknown while metadata is pending, unavailable as soon as one file has a
/// problem, available once the whole manifest was scanned cleanly.
pub open spec fn spec_data_availability(result: FileProbeBatchResult) -> Option<bool> {
    if result.pending_metadata {
        None
    } else if result.problem_files@.len() > 0 {
        Some(false)
    } else if result.reached_end_of_manifest {
        Some(true)
    } else {
        None
    }
}

/// Whether the data of a torrent is known to be available after a probe batch.
pub fn data_availability_from_file_probe_result(result: &FileProbeBatchResult) -> (availability:
    Option<bool>)
    ensures
        availability == spec_data_availability(*result),
{
    if result.pending_metadata {
        None
    } else if !result.problem_files.is_empty() {
        Some(false)
    } else if result.reached_end_of_manifest {
        Some(true)
    } else {
        None
    }
}

/// What a probe of a torrent's files found.
#[derive(Debug, Clone, PartialEq, Eq)]
pub enum TorrentFileProbeStatus {
    PendingMetadata,
    Files(Vec<FileProbeEntry>),
}

} // verus!
