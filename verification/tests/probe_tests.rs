use superseedr::probe::{
    data_availability_from_file_probe_result, FileProbeBatchResult, FileProbeEntry, StorageError,
};

fn missing_file_entry() -> FileProbeEntry {
    FileProbeEntry {
        relative_path: "missing.bin".into(),
        absolute_path: "/tmp/missing.bin".into(),
        error: StorageError::Io("No such file or directory".to_string()),
        expected_size: 1,
        observed_size: None,
    }
}

#[test]
fn data_availability_from_completed_probe_uses_problem_file_count() {
    assert_eq!(
        data_availability_from_file_probe_result(&FileProbeBatchResult {
            epoch: 0,
            scanned_files: 1,
            next_file_index: 0,
            reached_end_of_manifest: true,
            pending_metadata: false,
            problem_files: Vec::new(),
        }),
        Some(true)
    );
    assert_eq!(
        data_availability_from_file_probe_result(&FileProbeBatchResult {
            epoch: 0,
            scanned_files: 1,
            next_file_index: 0,
            reached_end_of_manifest: true,
            pending_metadata: false,
            problem_files: vec![missing_file_entry()],
        }),
        Some(false)
    );
}

#[test]
fn data_availability_from_incomplete_probe_result_is_unknown() {
    assert_eq!(
        data_availability_from_file_probe_result(&FileProbeBatchResult {
            epoch: 0,
            scanned_files: 128,
            next_file_index: 128,
            reached_end_of_manifest: false,
            pending_metadata: false,
            problem_files: Vec::new(),
        }),
        None
    );
    assert_eq!(
        data_availability_from_file_probe_result(&FileProbeBatchResult {
            epoch: 0,
            scanned_files: 128,
            next_file_index: 128,
            reached_end_of_manifest: false,
            pending_metadata: false,
            problem_files: vec![missing_file_entry()],
        }),
        Some(false)
    );
    assert_eq!(
        data_availability_from_file_probe_result(&FileProbeBatchResult {
            epoch: 0,
            scanned_files: 0,
            next_file_index: 0,
            reached_end_of_manifest: false,
            pending_metadata: true,
            problem_files: Vec::new(),
        }),
        None
    );
}

#[test]
fn pending_metadata_wins_over_problem_files() {
    assert_eq!(
        data_availability_from_file_probe_result(&FileProbeBatchResult {
            epoch: 3,
            scanned_files: 1,
            next_file_index: 1,
            reached_end_of_manifest: true,
            pending_metadata: true,
            problem_files: vec![missing_file_entry()],
        }),
        None
    );
}
