use file_tidy::command::{DupArgs, DupCommand, DupDelArgs};
use file_tidy::dup::{collect_duplicates, group_duplicates, same_size_files, FileEntry, HashedFile};
use file_tidy::dup_del::{check_before_delete, deletion_failed, find_group, is_protectd, plan_deletions, plan_first_seen, Deletion};
use file_tidy::enumerate::FileHashType;
use file_tidy::error::Error;
use file_tidy::report::{listing_title, render_listing};

fn entry(path: &str, size: u64) -> FileEntry {
    FileEntry { path: path.to_string(), size }
}

fn hashed(path: &str, hash: &[u8]) -> HashedFile {
    HashedFile { path: path.to_string(), hash: hash.to_vec() }
}

fn strings(v: &[&str]) -> Vec<String> {
    v.iter().map(|s| s.to_string()).collect()
}

#[test]
fn same_size_keeps_only_shared_sizes() {
    let entries = vec![entry("a", 10), entry("b", 3), entry("c", 10), entry("d", 7), entry("e", 3), entry("f", 1)];
    assert_eq!(same_size_files(&entries), vec![0, 1, 2, 4]);
}

#[test]
fn same_size_with_no_pairs() {
    let entries = vec![entry("a", 1), entry("b", 2)];
    assert_eq!(same_size_files(&entries), Vec::<usize>::new());
    assert_eq!(same_size_files(&Vec::new()), Vec::<usize>::new());
}

#[test]
fn groups_by_digest_sorted_by_path() {
    let files = vec![
        hashed("d/z", &[9, 9]),
        hashed("d/b", &[1]),
        hashed("d/only", &[5]),
        hashed("d/a", &[9, 9]),
        hashed("d/c", &[1]),
        hashed("d/m", &[9, 9]),
    ];
    let groups = group_duplicates(&files);
    assert_eq!(groups.len(), 2);
    assert_eq!(groups[0].hash, vec![1]);
    assert_eq!(groups[0].files, strings(&["d/b", "d/c"]));
    assert_eq!(groups[0].members, vec![1, 4]);
    assert_eq!(groups[1].hash, vec![9, 9]);
    assert_eq!(groups[1].files, strings(&["d/a", "d/m", "d/z"]));
    assert_eq!(groups[1].members, vec![3, 5, 0]);
}

#[test]
fn groups_none_when_all_digests_differ() {
    let files = vec![hashed("a", &[1]), hashed("b", &[2])];
    assert!(group_duplicates(&files).is_empty());
}

#[test]
fn groups_order_paths_by_parts() {
    let files = vec![hashed("x/a-b", &[7]), hashed("x/a/b", &[7])];
    let groups = group_duplicates(&files);
    assert_eq!(groups[0].files, strings(&["x/a/b", "x/a-b"]));
}

#[test]
fn listing_text() {
    let files = vec![hashed("d/b", &[0xab]), hashed("d/a", &[0xab]), hashed("d/c", &[0x01])];
    let groups = group_duplicates(&files);
    assert_eq!(
        render_listing(&groups, FileHashType::SHA3_256),
        "duplicate files (sha3-256: ab)\n    - d/a\n    - d/b\n\n"
    );
    assert_eq!(listing_title("d"), "duplicate files found in d:\n\n");
}

#[test]
fn listing_of_nothing_is_empty() {
    assert_eq!(render_listing(&Vec::new(), FileHashType::MD5), "");
}

#[test]
fn older_search_report() {
    let cmd = DupCommand {};
    assert_eq!(cmd.remove_trailing_slash("dir/"), "dir");
    assert_eq!(cmd.remove_trailing_slash("dir"), "dir");
    assert_eq!(cmd.remove_trailing_slash(""), "");
    let at = |dir: &str, output: &str| DupArgs { dir: dir.to_string(), output: output.to_string() };
    assert_eq!(cmd.report_path(&at("dir/", "")), "dir/__duplicate_file.txt");
    assert_eq!(cmd.report_path(&at("dir", "")), "dir/__duplicate_file.txt");
    assert_eq!(cmd.report_path(&at("dir", "out/report.txt")), "out/report.txt");
    let groups = group_duplicates(&vec![hashed("dir/x", &[0x10]), hashed("dir/y", &[0x10])]);
    assert_eq!(
        cmd.report_text("dir", &groups),
        "Duplicate files in dir:\n\nDuplicate files sha3: 10\n    - dir/x\n    - dir/y\n\n"
    );
    assert_eq!(cmd.compute_file_hash(b"abc").len(), 32);
}

#[test]
fn protection_is_by_whole_parts() {
    let protected = strings(&["dir/keep/", "other"]);
    assert!(is_protectd(&protected, "dir/keep/x"));
    assert!(is_protectd(&protected, "other"));
    assert!(!is_protectd(&protected, "dir/keeper/x"));
    assert!(!is_protectd(&Vec::new(), "anything"));
}

#[test]
fn plan_when_nothing_is_protected() {
    let files = strings(&["d/a", "d/b", "d/c"]);
    assert_eq!(
        plan_deletions(&files, &Vec::new()),
        vec![Deletion { keep: 0, delete: 1 }, Deletion { keep: 0, delete: 2 }]
    );
}

#[test]
fn plan_when_some_are_protected() {
    let files = strings(&["d/a", "d/keep/b", "d/c", "d/keep/d"]);
    let protected = strings(&["d/keep"]);
    assert_eq!(
        plan_deletions(&files, &protected),
        vec![Deletion { keep: 1, delete: 0 }, Deletion { keep: 1, delete: 2 }]
    );
}

#[test]
fn plan_when_all_are_protected() {
    let files = strings(&["d/a", "d/b"]);
    let protected = strings(&["d"]);
    assert!(plan_deletions(&files, &protected).is_empty());
}

#[test]
fn plan_never_deletes_every_file() {
    let files = strings(&["a", "b", "c", "d"]);
    for protected in [strings(&[]), strings(&["c"]), strings(&["a", "d"])] {
        let plan = plan_deletions(&files, &protected);
        let deleted: Vec<usize> = plan.iter().map(|d| d.delete).collect();
        assert!(deleted.len() < files.len());
        for d in &plan {
            assert!(!deleted.contains(&d.keep));
            assert!(!is_protectd(&protected, &files[d.delete]));
        }
    }
}

#[test]
fn protected_list_defaults_to_none() {
    let args = DupDelArgs { dir: "d".to_string(), recursive: false, digest: FileHashType::MD5, protect: None };
    assert!(args.protected_list().is_empty());
    let args = DupDelArgs {
        dir: "d".to_string(),
        recursive: true,
        digest: FileHashType::MD5,
        protect: Some(strings(&["x"])),
    };
    assert_eq!(args.protected_list(), strings(&["x"]));
}

#[test]
fn check_before_delete_agrees() {
    assert!(check_before_delete(&[1, 2], &[1, 2], "\"a\"", "\"b\"", FileHashType::SHA3_256, FileHashType::MD5).is_ok());
}

#[test]
fn check_before_delete_mismatch() {
    match check_before_delete(&[1, 2], &[1, 3], "\"a\"", "\"b\"", FileHashType::MD5, FileHashType::SHA1) {
        Err(Error::CustomError(m)) => {
            assert_eq!(m, "file \"a\" and \"b\" are the same in md5, but different in sha1")
        }
        _ => panic!("expected a mismatch"),
    }
}

#[test]
fn deletion_failure_message() {
    match deletion_failed("\"a\"", "denied") {
        Error::CustomError(m) => assert_eq!(m, "delete file \"a\" failed: denied"),
        _ => panic!("wrong variant"),
    }
}

#[test]
fn first_seen_keeps_earliest_of_each_digest() {
    let files = vec![
        hashed("z", &[2]),
        hashed("a", &[1]),
        hashed("y", &[2]),
        hashed("b", &[3]),
        hashed("c", &[1]),
        hashed("x", &[2]),
    ];
    assert_eq!(
        plan_first_seen(&files, &Vec::new()),
        vec![
            Deletion { keep: 0, delete: 2 },
            Deletion { keep: 1, delete: 4 },
            Deletion { keep: 0, delete: 5 },
        ]
    );
    assert!(plan_first_seen(&vec![hashed("a", &[1]), hashed("b", &[2])], &Vec::new()).is_empty());
}

#[test]
fn first_seen_keeps_protected_files() {
    let files = vec![
        hashed("d/z", &[2]),
        hashed("d/keep/y", &[2]),
        hashed("d/x", &[2]),
        hashed("d/keep/w", &[7]),
        hashed("d/v", &[7]),
    ];
    assert_eq!(
        plan_first_seen(&files, &strings(&["d/keep"])),
        vec![Deletion { keep: 0, delete: 2 }, Deletion { keep: 3, delete: 4 }]
    );
    assert!(plan_first_seen(&files, &strings(&["d"])).is_empty());
}

#[test]
fn find_group_by_digest() {
    let groups = group_duplicates(&vec![
        hashed("a", &[1]),
        hashed("b", &[1]),
        hashed("c", &[4, 4]),
        hashed("d", &[4, 4]),
    ]);
    assert_eq!(find_group(&groups, &[4, 4]), Some(1));
    assert_eq!(find_group(&groups, &[1]), Some(0));
    assert_eq!(find_group(&groups, &[2]), None);
}

#[test]
fn collect_duplicates_maps_back_to_entries() {
    let entries = vec![entry("d/c", 4), entry("d/a", 4), entry("d/x", 9), entry("d/b", 4), entry("d/y", 9)];
    let candidates = same_size_files(&entries);
    assert_eq!(candidates, vec![0, 1, 2, 3, 4]);
    let digests = vec![Some(vec![7]), Some(vec![7]), Some(vec![1]), None, Some(vec![2])];
    let groups = collect_duplicates(&entries, &candidates, &digests);
    assert_eq!(groups.len(), 1);
    assert_eq!(groups[0].hash, vec![7]);
    assert_eq!(groups[0].members, vec![1, 0]);
    assert_eq!(groups[0].files, strings(&["d/a", "d/c"]));
}

#[test]
fn collect_duplicates_splits_one_digest_by_size() {
    let entries = vec![entry("d/a", 4), entry("d/c", 9), entry("d/b", 4), entry("d/d", 9), entry("d/e", 5)];
    let candidates = vec![0, 1, 2, 3, 4];
    let digests = vec![Some(vec![7]), Some(vec![7]), Some(vec![7]), Some(vec![7]), Some(vec![7])];
    let groups = collect_duplicates(&entries, &candidates, &digests);
    assert_eq!(groups.len(), 2);
    assert_eq!(groups[0].hash, vec![7]);
    assert_eq!(groups[0].members, vec![0, 2]);
    assert_eq!(groups[0].files, strings(&["d/a", "d/b"]));
    assert_eq!(groups[1].hash, vec![7]);
    assert_eq!(groups[1].members, vec![1, 3]);
}
