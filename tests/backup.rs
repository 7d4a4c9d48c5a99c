use dir_backup::archive::{build_archive, read_archive, restore_from_archive};
use dir_backup::builder::{check_source, failing_source, plan_archive, path_starts_with, EntryKind, SourceDir, TreeEntry};
use dir_backup::error::BackupError;
use dir_backup::paths::{
    derive_root_name, normalize_selector, normalize_zip_path, path_to_zip_string, segment_strings,
    PathPart,
};
use dir_backup::restore::{plan_restore, select_entries, RestoreAction, StoredEntry};
use dir_backup::BackupMode;

fn abs(parts: &[&str]) -> Vec<PathPart> {
    let mut v = vec![PathPart::RootDir];
    for p in parts {
        v.push(PathPart::Normal(p.to_string()));
    }
    v
}

fn dir(path: &[&str]) -> TreeEntry {
    TreeEntry { path: path.iter().map(|s| s.to_string()).collect(), kind: EntryKind::Directory, data: vec![] }
}

fn file(path: &[&str], data: &[u8]) -> TreeEntry {
    TreeEntry { path: path.iter().map(|s| s.to_string()).collect(), kind: EntryKind::File, data: data.to_vec() }
}

fn link(path: &[&str]) -> TreeEntry {
    TreeEntry { path: path.iter().map(|s| s.to_string()).collect(), kind: EntryKind::Symlink, data: vec![] }
}

fn source(parts: &[&str], entries: Vec<TreeEntry>) -> SourceDir {
    SourceDir { exists: true, is_dir: true, canonical: abs(parts), entries }
}

fn stored(name: &str, data: &[u8]) -> StoredEntry {
    StoredEntry {
        name: name.to_string(),
        enclosed: true,
        is_dir: name.ends_with('/'),
        data: data.to_vec(),
    }
}

fn action_paths(acts: &[RestoreAction]) -> Vec<(String, bool, Vec<u8>)> {
    acts.iter().map(|a| (a.path.join("/"), a.is_dir, a.data.clone())).collect()
}

#[test]
fn normalize_splits_on_both_separators() {
    assert_eq!(normalize_zip_path("a\\b//c/"), "a/b/c");
    assert_eq!(normalize_zip_path("/root/"), "root");
    assert_eq!(normalize_zip_path(""), "");
    assert_eq!(normalize_zip_path("\\\\"), "");
    assert_eq!(normalize_zip_path("名前/子"), "名前/子");
}

#[test]
fn segments_are_the_non_empty_pieces() {
    assert_eq!(segment_strings("/x\\y//z"), vec!["x", "y", "z"]);
    assert!(segment_strings("//").is_empty());
}

#[test]
fn zip_string_keeps_normal_components() {
    let p = vec![
        PathPart::RootDir,
        PathPart::Normal("a".to_string()),
        PathPart::CurDir,
        PathPart::ParentDir,
        PathPart::Normal("b".to_string()),
    ];
    assert_eq!(path_to_zip_string(&p), "a/b");
    assert_eq!(path_to_zip_string(&vec![PathPart::RootDir]), "");
}

#[test]
fn root_name_is_last_normal_component() {
    assert_eq!(derive_root_name(&abs(&["data", "projA"])), Ok("projA".to_string()));
    let p = vec![PathPart::Normal("x".to_string()), PathPart::ParentDir];
    assert_eq!(derive_root_name(&p), Ok("x".to_string()));
    assert_eq!(derive_root_name(&vec![PathPart::RootDir]), Err(BackupError::UnnameableRoot));
}

#[test]
fn prefix_compares_whole_components() {
    assert!(path_starts_with(&abs(&["a", "b", "c"]), &abs(&["a", "b"])));
    assert!(!path_starts_with(&abs(&["a", "bc"]), &abs(&["a", "b"])));
    assert!(!path_starts_with(&abs(&["a"]), &abs(&["a", "b"])));
}

#[test]
fn source_checks_in_order() {
    let archive = abs(&["out", "backup.zip"]);
    let mut s = source(&["data", "p"], vec![]);
    s.exists = false;
    assert_eq!(check_source(&archive, &s), Err(BackupError::NotFound));
    let mut s = source(&["data", "p"], vec![]);
    s.is_dir = false;
    assert_eq!(check_source(&archive, &s), Err(BackupError::NotADirectory));
    let s = source(&["out"], vec![]);
    assert_eq!(check_source(&archive, &s), Err(BackupError::SelfContainment));
    let s = SourceDir { exists: true, is_dir: true, canonical: vec![PathPart::Prefix("C:".to_string()), PathPart::RootDir], entries: vec![] };
    assert_eq!(check_source(&archive, &s), Err(BackupError::UnnameableRoot));
    assert_eq!(check_source(&archive, &source(&["data", "p"], vec![])), Ok("p".to_string()));
}

#[test]
fn duplicate_root_name_is_refused() {
    let archive = abs(&["out", "backup.zip"]);
    let sources = vec![source(&["a", "x"], vec![]), source(&["b", "x"], vec![])];
    assert!(matches!(plan_archive(&archive, &sources), Err(BackupError::DuplicateRootName)));
    assert!(matches!(build_archive(&archive, &sources), Err(BackupError::DuplicateRootName)));
}

#[test]
fn archive_inside_source_is_refused() {
    let archive = abs(&["data", "projA", "backup.zip"]);
    let sources = vec![source(&["data", "projB"], vec![]), source(&["data", "projA"], vec![])];
    assert!(matches!(plan_archive(&archive, &sources), Err(BackupError::SelfContainment)));
    assert!(matches!(build_archive(&archive, &sources), Err(BackupError::SelfContainment)));
}

#[test]
fn plan_names_entries_under_root_and_skips_links() {
    let archive = abs(&["out", "backup.zip"]);
    let sources = vec![source(
        &["data", "projA"],
        vec![dir(&["empty"]), dir(&["src"]), file(&["src", "main.rs"], b"fn main() {}"), link(&["ln"])],
    )];
    let plan = plan_archive(&archive, &sources).ok().unwrap();
    let names: Vec<(String, bool)> = plan.iter().map(|e| (e.name.clone(), e.is_dir)).collect();
    assert_eq!(
        names,
        vec![
            ("projA/".to_string(), true),
            ("projA/empty/".to_string(), true),
            ("projA/src/".to_string(), true),
            ("projA/src/main.rs".to_string(), false),
        ]
    );
    assert_eq!(plan[3].data, b"fn main() {}".to_vec());
}

#[test]
fn selector_with_parent_segment_is_invalid() {
    assert_eq!(normalize_selector("root/../etc"), Err(BackupError::InvalidSelector));
    assert_eq!(normalize_selector("//"), Err(BackupError::InvalidSelector));
    assert_eq!(normalize_selector("\\projA\\sub/"), Ok("projA/sub".to_string()));
    let entries = vec![stored("root/", b""), stored("etc/passwd", b"x")];
    assert!(matches!(plan_restore(&entries, "root/../etc", false), Err(BackupError::InvalidSelector)));
    assert!(matches!(restore_from_archive(vec![1, 2, 3], "..", false), Err(BackupError::InvalidSelector)));
}

#[test]
fn missing_root_is_reported_after_scan() {
    let entries = vec![stored("projA/", b""), stored("projA/f", b"1")];
    assert!(matches!(plan_restore(&entries, "projC", false), Err(BackupError::RootNotFound)));
    assert!(matches!(plan_restore(&entries, "proj", false), Err(BackupError::RootNotFound)));
}

#[test]
fn marker_alone_counts_as_found() {
    let entries = vec![stored("projA/", b"")];
    let acts = plan_restore(&entries, "projA", false).ok().unwrap();
    assert!(acts.is_empty());
}

#[test]
fn unsafe_entries_are_skipped() {
    let mut outside = stored("projA/../../evil", b"bad");
    outside.enclosed = false;
    let entries = vec![
        stored("projA/", b""),
        outside,
        stored("projA/x/../y", b"climb"),
        stored("projA/ok.txt", b"good"),
    ];
    let acts = plan_restore(&entries, "projA", false).ok().unwrap();
    assert_eq!(action_paths(&acts), vec![("ok.txt".to_string(), false, b"good".to_vec())]);
}

#[test]
fn nested_selector_restores_subtree() {
    let entries = vec![
        stored("projA/", b""),
        stored("projA/src/", b""),
        stored("projA/src/lib.rs", b"lib"),
        stored("projA/srcx/other", b"no"),
    ];
    let acts = select_entries(&entries, &vec!["projA".to_string(), "src".to_string()], false).ok().unwrap();
    assert_eq!(action_paths(&acts), vec![("lib.rs".to_string(), false, b"lib".to_vec())]);
}

#[test]
fn build_then_restore_in_memory() {
    let archive = abs(&["out", "backup.zip"]);
    let sources = vec![
        source(
            &["data", "projA"],
            vec![dir(&["empty"]), dir(&["src"]), file(&["src", "a.txt"], b"alpha"), link(&["ln"])],
        ),
        source(&["data", "projB"], vec![file(&["b.bin"], &[0u8, 255, 7])]),
    ];
    let bytes = build_archive(&archive, &sources).ok().unwrap();
    let entries = read_archive(bytes.clone()).ok().unwrap();
    let tops: Vec<&str> = entries.iter().filter(|e| e.name.matches('/').count() == 1 && e.is_dir).map(|e| e.name.as_str()).collect();
    assert_eq!(tops, vec!["projA/", "projB/"]);
    assert!(entries.iter().all(|e| e.enclosed));

    let acts = restore_from_archive(bytes.clone(), "projA", false).ok().unwrap();
    assert_eq!(
        action_paths(&acts),
        vec![
            ("empty".to_string(), true, vec![]),
            ("src".to_string(), true, vec![]),
            ("src/a.txt".to_string(), false, b"alpha".to_vec()),
        ]
    );
    let acts_b = restore_from_archive(bytes.clone(), "projB", false).ok().unwrap();
    assert_eq!(action_paths(&acts_b), vec![("b.bin".to_string(), false, vec![0u8, 255, 7])]);
    assert!(matches!(restore_from_archive(bytes, "projC", false), Err(BackupError::RootNotFound)));
}

#[test]
fn restoring_twice_gives_the_same_steps() {
    let archive = abs(&["out", "backup.zip"]);
    let sources = vec![source(&["data", "projA"], vec![file(&["f"], b"same")])];
    let bytes = build_archive(&archive, &sources).ok().unwrap();
    let first = restore_from_archive(bytes.clone(), "projA", false).ok().unwrap();
    let second = restore_from_archive(bytes, "projA", false).ok().unwrap();
    assert_eq!(action_paths(&first), action_paths(&second));
}

#[test]
fn corrupt_archive_is_an_archive_error() {
    assert!(matches!(read_archive(vec![0u8; 16]), Err(BackupError::Archive)));
    assert!(matches!(restore_from_archive(vec![], "projA", false), Err(BackupError::Archive)));
}

#[test]
fn modes_compare() {
    assert_ne!(BackupMode::Backup, BackupMode::Restore);
}

#[test]
fn drive_prefix_entries_are_skipped_only_where_the_host_reads_them() {
    let entries = vec![
        stored("projA/", b""),
        stored("projA/C:/x", b"drive"),
        stored("projA/1:30.log", b"time"),
        stored("projA/ab:c/keep", b"kept"),
    ];
    let on_windows = plan_restore(&entries, "projA", true).ok().unwrap();
    assert_eq!(action_paths(&on_windows), vec![("ab:c/keep".to_string(), false, b"kept".to_vec())]);
    let elsewhere = plan_restore(&entries, "projA", false).ok().unwrap();
    assert_eq!(
        action_paths(&elsewhere),
        vec![
            ("C:/x".to_string(), false, b"drive".to_vec()),
            ("1:30.log".to_string(), false, b"time".to_vec()),
            ("ab:c/keep".to_string(), false, b"kept".to_vec()),
        ]
    );
    let colon = vec![stored("p/a:b", b"x")];
    assert_eq!(action_paths(&plan_restore(&colon, "p", false).ok().unwrap()), vec![("a:b".to_string(), false, b"x".to_vec())]);
}

#[test]
fn empty_source_round_trips_to_empty_destination() {
    let archive = abs(&["out", "backup.zip"]);
    let sources = vec![source(&["data", "bare"], vec![])];
    let bytes = build_archive(&archive, &sources).ok().unwrap();
    let entries = read_archive(bytes.clone()).ok().unwrap();
    assert_eq!(entries.len(), 1);
    assert_eq!(entries[0].name, "bare/");
    assert!(entries[0].is_dir);
    let acts = restore_from_archive(bytes, "bare", false).ok().unwrap();
    assert!(acts.is_empty());
}

#[test]
fn failing_source_names_the_first_culprit() {
    let archive = abs(&["out", "backup.zip"]);
    let ok = vec![source(&["a", "x"], vec![]), source(&["b", "y"], vec![])];
    assert_eq!(failing_source(&archive, &ok), None);
    let dup = vec![source(&["a", "x"], vec![]), source(&["b", "y"], vec![]), source(&["c", "x"], vec![])];
    assert_eq!(failing_source(&archive, &dup), Some(2));
    let mut missing = source(&["a", "z"], vec![]);
    missing.exists = false;
    let bad = vec![source(&["a", "x"], vec![]), missing];
    assert_eq!(failing_source(&archive, &bad), Some(1));
}
