use ferret::duplicates::{DuplicateGroup, DuplicateResults, FileEntry, FileRecord, SmartDuplicateDetector};
use ferret::grouping::{normalize_filename, SmartGrouper};
use ferret::hashing::FileHasher;
use ferret::platform::analyze_entries;

fn bytes(s: &str) -> Vec<u8> {
    s.as_bytes().to_vec()
}

#[test]
fn normalization_strips_version_markers() {
    assert_eq!(normalize_filename(&bytes("report_v1.docx")), bytes("report"));
    assert_eq!(normalize_filename(&bytes("report_v2.docx")), bytes("report"));
    assert_eq!(normalize_filename(&bytes("report_final.docx")), bytes("report"));
    assert_eq!(normalize_filename(&bytes("Draft-Final.txt")), bytes("draft"));
    assert_eq!(normalize_filename(&bytes("dir/sub/Report_V3.txt")), bytes("report"));
    assert_eq!(normalize_filename(&bytes("notes backup.md")), bytes("notes"));
    assert_eq!(normalize_filename(&bytes("budget 2.xls")), bytes("budget"));
}

#[test]
fn normalization_falls_back_on_empty_strip() {
    // Stripping the only token would leave nothing: the lower-cased stem
    // stays.
    assert_eq!(normalize_filename(&bytes("v2.txt")), bytes("v2"));
    assert_eq!(normalize_filename(&bytes("Final.txt")), bytes("final"));
    assert_eq!(normalize_filename(&bytes("42.txt")), bytes("42"));
    assert_eq!(normalize_filename(&bytes("")), bytes(""));
}

#[test]
fn report_variants_land_in_one_group() {
    let grouper = SmartGrouper::new();
    let groups = grouper.group_files(vec![
        bytes("report_v1.docx"),
        bytes("report_v2.docx"),
        bytes("report_final.docx"),
    ]);
    assert_eq!(groups.len(), 1);
    assert_eq!(groups[0].canonical_name, bytes("report"));
    assert_eq!(
        groups[0].variants,
        vec![bytes("report_v1.docx"), bytes("report_v2.docx"), bytes("report_final.docx")]
    );
    assert!(groups[0].is_potential_duplicate());
}

#[test]
fn unrelated_names_stay_apart() {
    let grouper = SmartGrouper::new();
    let groups = grouper.group_files(vec![bytes("alpha.txt"), bytes("zebra.txt")]);
    assert_eq!(groups.len(), 2);
    assert!(!groups[0].is_potential_duplicate());
}

#[test]
fn grouping_is_deterministic() {
    let files = vec![
        bytes("report_v1.docx"),
        bytes("report_v2.docx"),
        bytes("alpha.txt"),
        bytes("alpha_copy.txt"),
        bytes("zebra.txt"),
    ];
    let grouper = SmartGrouper::new();
    let first = grouper.group_files(files.clone());
    let second = grouper.group_files(files);
    assert_eq!(first, second);
}

#[test]
fn identical_content_hashes_identically() {
    let hasher = FileHasher::new();
    let a = hasher.calculate_hash(&bytes("Hello, world!"));
    let b = hasher.calculate_hash(&bytes("Hello, world!"));
    let c = hasher.calculate_hash(&bytes("Different content"));
    assert_eq!(a, b);
    assert_ne!(a, c);
}

#[test]
fn sha256_matches_known_digest() {
    // SHA-256 of "abc".
    let expected: Vec<u8> = vec![
        0xba, 0x78, 0x16, 0xbf, 0x8f, 0x01, 0xcf, 0xea, 0x41, 0x41, 0x40, 0xde, 0x5d, 0xae,
        0x22, 0x23, 0xb0, 0x03, 0x61, 0xa3, 0x96, 0x17, 0x7a, 0x9c, 0xb4, 0x10, 0xff, 0x61,
        0xf2, 0x00, 0x15, 0xad,
    ];
    let hasher = FileHasher::new();
    assert_eq!(hasher.calculate_hash(&bytes("abc")), expected);
}

#[test]
fn identical_files_form_one_duplicate_set() {
    let mut hasher = FileHasher::new();
    hasher.record_file(bytes("a.txt"), &bytes("Hello, world!"));
    hasher.record_file(bytes("b.txt"), &bytes("Hello, world!"));
    hasher.record_file(bytes("c.txt"), &bytes("Different content"));
    let sets = hasher.get_duplicates();
    assert_eq!(sets.len(), 1);
    assert_eq!(sets[0], vec![bytes("a.txt"), bytes("b.txt")]);

    let mut results = DuplicateResults::new();
    results.add_duplicate_group(DuplicateGroup {
        base_name: bytes("a"),
        duplicate_sets: vec![vec![
            FileRecord { path: bytes("a.txt"), size: 13 },
            FileRecord { path: bytes("b.txt"), size: 13 },
        ]],
    });
    assert_eq!(results.total_duplicates, 1);
    assert_eq!(results.space_wasted, 13);
    assert_eq!(results.duplicate_groups.len(), 1);
}

#[test]
fn accounting_counts_all_but_first_of_each_set() {
    let mut results = DuplicateResults::new();
    results.add_duplicate_group(DuplicateGroup {
        base_name: bytes("report"),
        duplicate_sets: vec![
            vec![
                FileRecord { path: bytes("r1"), size: 100 },
                FileRecord { path: bytes("r2"), size: 110 },
                FileRecord { path: bytes("r3"), size: 120 },
            ],
            vec![
                FileRecord { path: bytes("s1"), size: 7 },
                FileRecord { path: bytes("s2"), size: 9 },
            ],
        ],
    });
    // Two sets contribute (3 - 1) + (2 - 1) duplicates and the sizes of
    // every member but the first of each set.
    assert_eq!(results.total_duplicates, 3);
    assert_eq!(results.space_wasted, 110 + 120 + 9);

    results.add_duplicate_group(DuplicateGroup {
        base_name: bytes("single"),
        duplicate_sets: vec![vec![FileRecord { path: bytes("only"), size: 999 }]],
    });
    // A one-member set contributes nothing.
    assert_eq!(results.total_duplicates, 3);
    assert_eq!(results.space_wasted, 239);
}

#[test]
fn detector_finds_duplicates_within_a_group() {
    let grouper = SmartGrouper::new();
    let groups = grouper.group_files(vec![
        bytes("notes_v1.txt"),
        bytes("notes_v2.txt"),
        bytes("notes_final.txt"),
    ]);
    assert_eq!(groups.len(), 1);
    let files = vec![
        FileEntry { path: bytes("notes_v1.txt"), size: 5, content: Some(bytes("aaaaa")) },
        FileEntry { path: bytes("notes_v2.txt"), size: 5, content: Some(bytes("aaaaa")) },
        FileEntry { path: bytes("notes_final.txt"), size: 4, content: Some(bytes("bbbb")) },
    ];
    let detector = SmartDuplicateDetector::new();
    let results = detector.detect_duplicates(&groups, &files);
    assert_eq!(results.duplicate_groups.len(), 1);
    assert_eq!(results.duplicate_groups[0].base_name, bytes("notes"));
    assert_eq!(results.duplicate_groups[0].duplicate_sets.len(), 1);
    let set = &results.duplicate_groups[0].duplicate_sets[0];
    assert_eq!(set.len(), 2);
    assert_eq!(set[0].path, bytes("notes_v1.txt"));
    assert_eq!(set[1].path, bytes("notes_v2.txt"));
    assert_eq!(results.total_duplicates, 1);
    assert_eq!(results.space_wasted, 5);
}

#[test]
fn detector_skips_unreadable_members() {
    let grouper = SmartGrouper::new();
    let groups = grouper.group_files(vec![bytes("log_v1.txt"), bytes("log_v2.txt")]);
    let files = vec![
        FileEntry { path: bytes("log_v1.txt"), size: 3, content: Some(bytes("xyz")) },
        FileEntry { path: bytes("log_v2.txt"), size: 3, content: None },
    ];
    let detector = SmartDuplicateDetector::new();
    let results = detector.detect_duplicates(&groups, &files);
    // The unreadable member is skipped, so no set of two forms; the run
    // still produces a (partial) result.
    assert_eq!(results.total_duplicates, 0);
    assert_eq!(results.duplicate_groups.len(), 0);
}

#[test]
fn pipeline_rolls_up_counts() {
    let entries = vec![
        FileEntry { path: bytes("plan_v1.txt"), size: 6, content: Some(bytes("shared")) },
        FileEntry { path: bytes("plan_v2.txt"), size: 6, content: Some(bytes("shared")) },
        FileEntry { path: bytes("other.txt"), size: 4, content: Some(bytes("solo")) },
    ];
    let results = analyze_entries(&entries);
    assert_eq!(results.total_files, 3);
    assert_eq!(results.total_groups, 2);
    assert_eq!(results.duplicate_results.total_duplicates, 1);
    assert_eq!(results.duplicate_results.space_wasted, 6);
    assert_eq!(results.duplicate_results.duplicate_groups.len(), 1);
    assert_eq!(results.duplicate_results.duplicate_groups[0].base_name, bytes("plan"));
}
