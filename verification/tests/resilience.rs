use ferret::aging::FileAgeAnalyzer;
use ferret::archives::{ArchiveEntry, ArchiveProcessor};
use ferret::network::{FileContent, NetworkAwareIO, ReadStrategy};
use ferret::retry::{is_file_locked, ProcessResult, RetryManager, RetryOutcome};

fn bytes(s: &str) -> Vec<u8> {
    s.as_bytes().to_vec()
}

#[test]
fn locked_file_exhausts_retries_into_the_failure_list() {
    let mut manager = RetryManager::default();
    manager.add_locked_file(bytes("locked.txt"), bytes("sharing violation"));

    // Three rounds of "still locked" raise the count without reporting.
    for _ in 0..3 {
        let results = manager.retry_locked_files(&vec![RetryOutcome::StillLocked]);
        assert_eq!(results.len(), 0);
        assert_eq!(manager.locked_files.len(), 1);
    }
    // The fourth round finds the retry bound exhausted: the file lands in
    // the reported failures and leaves the queue; nothing panics.
    let results = manager.retry_locked_files(&vec![RetryOutcome::StillLocked]);
    assert_eq!(manager.locked_files.len(), 0);
    assert_eq!(results.len(), 1);
    match &results[0] {
        ProcessResult::Failed { path, error } => {
            assert_eq!(path, &bytes("locked.txt"));
            assert_eq!(error, &bytes("Max retries exceeded: sharing violation"));
        }
        ProcessResult::Success { .. } => panic!("expected a permanent failure"),
    }
}

#[test]
fn successful_retry_is_reported_and_dequeued() {
    let mut manager = RetryManager::default();
    manager.add_locked_file(bytes("was-locked.txt"), bytes("access denied"));
    let results = manager.retry_locked_files(&vec![RetryOutcome::Succeeded]);
    assert_eq!(results, vec![ProcessResult::Success { path: bytes("was-locked.txt") }]);
    assert_eq!(manager.locked_files.len(), 0);
}

#[test]
fn lock_flavored_failure_requeues_and_other_failures_report() {
    let mut manager = RetryManager::default();
    manager.add_locked_file(bytes("a.txt"), bytes("first error"));
    manager.add_locked_file(bytes("b.txt"), bytes("second error"));
    let results = manager.retry_locked_files(&vec![
        RetryOutcome::Failed { error: bytes("File is LOCKED by someone") },
        RetryOutcome::Failed { error: bytes("no such file") },
    ]);
    assert_eq!(manager.locked_files.len(), 1);
    assert_eq!(manager.locked_files[0].path, bytes("a.txt"));
    assert_eq!(manager.locked_files[0].retry_count, 1);
    assert_eq!(
        results,
        vec![ProcessResult::Failed { path: bytes("b.txt"), error: bytes("no such file") }]
    );
}

#[test]
fn lock_error_detection_is_case_insensitive() {
    let manager = RetryManager::default();
    assert!(manager.is_lock_error(&bytes("Access DENIED while opening")));
    assert!(manager.is_lock_error(&bytes("file is being used by another process")));
    assert!(!manager.is_lock_error(&bytes("no such file or directory")));
}

#[test]
fn lock_probe_reports_nothing_locked() {
    assert!(!is_file_locked(&bytes("anything.txt")));
}

#[test]
fn ages_fall_into_three_classes() {
    let mut analyzer = FileAgeAnalyzer::new(30, 180);
    let day = 86400;
    analyzer.categorize_file_age(bytes("fresh.txt"), 3 * day);
    analyzer.categorize_file_age(bytes("edge-recent.txt"), 30 * day);
    analyzer.categorize_file_age(bytes("aging.txt"), 90 * day);
    analyzer.categorize_file_age(bytes("ancient.txt"), 365 * day);
    assert_eq!(analyzer.summary(), (2, 1, 1));
    assert_eq!(analyzer.recent_files, vec![bytes("fresh.txt"), bytes("edge-recent.txt")]);
    assert_eq!(analyzer.stale_files, vec![bytes("aging.txt")]);
    assert_eq!(analyzer.old_files, vec![bytes("ancient.txt")]);
}

#[test]
fn network_paths_are_recognized() {
    let io = NetworkAwareIO::default();
    assert!(io.is_network_path(&bytes("\\\\server\\share\\f.txt")));
    assert!(io.is_network_path(&bytes("//server/share/f.txt")));
    assert!(!io.is_network_path(&bytes("/home/user/f.txt")));
    assert!(!io.is_network_path(&bytes("C:\\f.txt")));
}

#[test]
fn read_strategy_follows_the_size_tiers() {
    let io = NetworkAwareIO::default();
    assert_eq!(io.read_strategy(100 * 1024 * 1024 + 1, true), ReadStrategy::MetadataOnly);
    assert_eq!(io.read_strategy(100 * 1024 * 1024, true), ReadStrategy::Preview);
    assert_eq!(io.read_strategy(10 * 1024 * 1024 + 1, true), ReadStrategy::Preview);
    assert_eq!(io.read_strategy(10 * 1024 * 1024, true), ReadStrategy::Full);
    assert_eq!(io.read_strategy(50 * 1024 * 1024 + 1, false), ReadStrategy::MetadataOnly);
    assert_eq!(io.read_strategy(50 * 1024 * 1024, false), ReadStrategy::Full);
}

#[test]
fn cache_serves_fresh_entries_only() {
    let mut io = NetworkAwareIO::default();
    let content = FileContent::Full { content: bytes("body"), size: 4, modified: 1000 };
    io.store_cached(bytes("f.txt"), content.clone(), 1000);
    // Fresh within the five-minute window.
    assert_eq!(io.get_cached_metadata(&bytes("f.txt"), 1299), Some(&content));
    // Expired at the window's edge.
    assert_eq!(io.get_cached_metadata(&bytes("f.txt"), 1300), None);
    // Unknown path.
    assert_eq!(io.get_cached_metadata(&bytes("g.txt"), 1000), None);
}

#[test]
fn document_names_are_classified_by_extension() {
    let processor = ArchiveProcessor::new();
    assert!(processor.is_document_file(&bytes("report.DOCX")));
    assert!(processor.is_document_file(&bytes("notes.txt")));
    assert!(processor.is_document_file(&bytes("slides.pptx")));
    assert!(!processor.is_document_file(&bytes("image.png")));
    assert!(!processor.is_document_file(&bytes("binary")));
    assert!(!processor.is_document_file(&bytes(".txt")));
}

#[test]
fn archive_members_are_filtered_to_documents() {
    let processor = ArchiveProcessor::new();
    let infos = processor.collect_document_entries(
        &bytes("backup.zip"),
        &vec![
            ArchiveEntry { file_name: bytes("a.txt"), content_length: 10 },
            ArchiveEntry { file_name: bytes("b.png"), content_length: 20 },
            ArchiveEntry { file_name: bytes("c.pdf"), content_length: 30 },
        ],
    );
    assert_eq!(infos.len(), 2);
    assert_eq!(infos[0].file_name, bytes("a.txt"));
    assert_eq!(infos[0].archive_path, bytes("backup.zip"));
    assert_eq!(infos[0].content_length, 10);
    assert!(!infos[0].is_duplicate);
    assert_eq!(infos[1].file_name, bytes("c.pdf"));
}
