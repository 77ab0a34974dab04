use dupfinder::content::{calculate_hash, files_to_hash, get_identical_files};
use dupfinder::grouping::{add_file_path, GroupMap};
use dupfinder::prompt::{confirms_deletion, is_yes};
use dupfinder::report::{process_results, ReportGroup};
use dupfinder::scan::{get_files_with_same_size, FileEntry};

fn file(path: &str, len: u64) -> FileEntry {
    FileEntry { path: path.to_string(), len, is_file: true }
}

fn dir(path: &str) -> FileEntry {
    FileEntry { path: path.to_string(), len: 4096, is_file: false }
}

/// Runs the whole pipeline over `files`, each given with its bytes.
fn run(files: &[(&str, Vec<u8>)], extra: Vec<FileEntry>, ignore_empty: bool, delete_dups: bool) -> Vec<ReportGroup> {
    let mut entries = extra;
    for (path, bytes) in files {
        entries.push(file(path, bytes.len() as u64));
    }
    let size_groups = get_files_with_same_size(&entries, ignore_empty);
    let to_hash = files_to_hash(&size_groups);
    let mut digests = Vec::new();
    for path in &to_hash {
        let bytes = &files.iter().find(|(p, _)| p == path).unwrap().1;
        digests.push(calculate_hash(bytes));
    }
    let hash_groups = get_identical_files(&size_groups, &digests);
    process_results(&hash_groups, delete_dups)
}

fn paths_of(g: &ReportGroup) -> Vec<String> {
    g.entries.iter().map(|e| e.path.clone()).collect()
}

#[test]
fn scenario_same_size_two_contents() {
    let x = vec![7u8; 100];
    let y = vec![9u8; 100];
    let files = [("d/a", x.clone()), ("d/b", x.clone()), ("d/c", y)];
    let report = run(&files, vec![dir("d")], false, false);
    assert_eq!(report.len(), 1);
    assert_eq!(report[0].hash, calculate_hash(&x));
    assert_eq!(paths_of(&report[0]), vec!["d/a".to_string(), "d/b".to_string()]);
    assert!(report[0].entries.iter().all(|e| !e.delete));
}

#[test]
fn scenario_same_size_all_hashed() {
    let x = vec![7u8; 100];
    let y = vec![9u8; 100];
    let entries = vec![file("a", 100), file("b", 100), file("c", 100)];
    let size_groups = get_files_with_same_size(&entries, false);
    let to_hash = files_to_hash(&size_groups);
    assert_eq!(to_hash, vec!["a".to_string(), "b".to_string(), "c".to_string()]);
    let digests = vec![calculate_hash(&x), calculate_hash(&x), calculate_hash(&y)];
    let hash_groups = get_identical_files(&size_groups, &digests);
    assert_eq!(hash_groups.key_list(), vec![calculate_hash(&x), calculate_hash(&y)]);
    assert_eq!(hash_groups.paths(calculate_hash(&y)), vec!["c".to_string()]);
}

#[test]
fn scenario_one_empty_file() {
    let files = [("e", Vec::new())];
    let entries = vec![file("e", 0)];
    let size_groups = get_files_with_same_size(&entries, false);
    assert_eq!(size_groups.paths(0), vec!["e".to_string()]);
    assert!(files_to_hash(&size_groups).is_empty());
    assert!(run(&files, Vec::new(), false, false).is_empty());
}

#[test]
fn scenario_two_empty_files() {
    let files = [("e1", Vec::new()), ("e2", Vec::new())];
    let report = run(&files, Vec::new(), false, false);
    assert_eq!(report.len(), 1);
    assert_eq!(report[0].hash, calculate_hash(&Vec::new()));
    assert_eq!(paths_of(&report[0]), vec!["e1".to_string(), "e2".to_string()]);
}

#[test]
fn scenario_two_empty_files_ignored() {
    let files = [("e1", Vec::new()), ("e2", Vec::new())];
    let entries = vec![file("e1", 0), file("e2", 0)];
    let size_groups = get_files_with_same_size(&entries, true);
    assert!(size_groups.key_list().is_empty());
    assert!(run(&files, Vec::new(), true, false).is_empty());
}

#[test]
fn same_bytes_reported_other_bytes_not() {
    let files = [
        ("p", vec![1u8, 2, 3]),
        ("q", vec![1u8, 2, 4]),
        ("r", vec![1u8, 2, 3]),
        ("s", vec![1u8, 2, 3, 4]),
    ];
    let report = run(&files, Vec::new(), false, false);
    assert_eq!(report.len(), 1);
    assert_eq!(paths_of(&report[0]), vec!["p".to_string(), "r".to_string()]);
}

#[test]
fn unique_size_never_hashed() {
    let entries = vec![file("a", 10), file("b", 20), file("c", 10)];
    let size_groups = get_files_with_same_size(&entries, false);
    let to_hash = files_to_hash(&size_groups);
    assert_eq!(to_hash, vec!["a".to_string(), "c".to_string()]);
    assert!(!to_hash.contains(&"b".to_string()));
}

#[test]
fn many_empty_files_ignored() {
    let files = [
        ("e1", Vec::new()),
        ("e2", Vec::new()),
        ("e3", Vec::new()),
        ("f1", vec![5u8; 8]),
        ("f2", vec![5u8; 8]),
    ];
    let report = run(&files, Vec::new(), true, false);
    assert_eq!(report.len(), 1);
    assert_eq!(paths_of(&report[0]), vec!["f1".to_string(), "f2".to_string()]);
}

#[test]
fn deletion_keeps_first_of_each_group() {
    let files = [
        ("a", vec![1u8; 4]),
        ("solo", vec![3u8; 9]),
        ("b", vec![1u8; 4]),
        ("c", vec![1u8; 4]),
        ("x", vec![2u8; 6]),
        ("y", vec![2u8; 6]),
    ];
    let report = run(&files, Vec::new(), false, true);
    assert_eq!(report.len(), 2);
    assert_eq!(paths_of(&report[0]), vec!["a".to_string(), "b".to_string(), "c".to_string()]);
    let flags: Vec<bool> = report[0].entries.iter().map(|e| e.delete).collect();
    assert_eq!(flags, vec![false, true, true]);
    assert_eq!(paths_of(&report[1]), vec!["x".to_string(), "y".to_string()]);
    let flags: Vec<bool> = report[1].entries.iter().map(|e| e.delete).collect();
    assert_eq!(flags, vec![false, true]);
    assert!(report.iter().all(|g| g.entries.iter().all(|e| e.path != "solo")));
}

#[test]
fn declined_prompt() {
    assert!(!confirms_deletion("n\n"));
    assert!(!confirms_deletion("\n"));
    assert!(!confirms_deletion("Y\n"));
    assert!(!confirms_deletion("yes\n"));
    assert!(!confirms_deletion("yy"));
}

#[test]
fn accepted_prompt_is_trimmed() {
    assert!(confirms_deletion("y\n"));
    assert!(confirms_deletion("  y \t\r\n"));
    assert!(is_yes("y"));
    assert!(!is_yes(" y"));
}

#[test]
fn two_runs_agree() {
    let files = [("a", vec![4u8; 3]), ("b", vec![4u8; 3]), ("c", vec![5u8; 3]), ("d", vec![5u8; 3])];
    let first = run(&files, Vec::new(), false, false);
    let second = run(&files, Vec::new(), false, false);
    assert_eq!(first.len(), 2);
    assert_eq!(first.len(), second.len());
    for (g, h) in first.iter().zip(second.iter()) {
        assert_eq!(g.hash, h.hash);
        assert_eq!(paths_of(g), paths_of(h));
    }
}

#[test]
fn add_creates_then_appends() {
    let mut m = GroupMap::new();
    add_file_path(&mut m, 5, "x".to_string());
    add_file_path(&mut m, 3, "y".to_string());
    add_file_path(&mut m, 5, "z".to_string());
    assert_eq!(m.key_list(), vec![5, 3]);
    assert_eq!(m.paths(5), vec!["x".to_string(), "z".to_string()]);
    assert_eq!(m.paths(3), vec!["y".to_string()]);
    assert!(m.paths(4).is_empty());
}

#[test]
fn directories_are_not_files() {
    let entries = vec![dir("d1"), dir("d2"), file("d1/f", 4096)];
    let size_groups = get_files_with_same_size(&entries, false);
    assert_eq!(size_groups.paths(4096), vec!["d1/f".to_string()]);
}

#[test]
fn hash_depends_on_content() {
    assert_eq!(calculate_hash(&vec![1u8, 2, 3]), calculate_hash(&vec![1u8, 2, 3]));
    assert_ne!(calculate_hash(&vec![1u8, 2, 3]), calculate_hash(&vec![3u8, 2, 1]));
    assert_ne!(calculate_hash(&vec![0u8]), calculate_hash(&Vec::new()));
}

#[test]
fn largest_size_groups() {
    let entries = vec![file("a", u64::MAX), file("b", u64::MAX)];
    let size_groups = get_files_with_same_size(&entries, true);
    assert_eq!(files_to_hash(&size_groups), vec!["a".to_string(), "b".to_string()]);
}
