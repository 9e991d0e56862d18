use dupfinder::cache::{cache_path_for, load, save, FileProbe};
use dupfinder::path::FilePath;
use dupfinder::record::{DuplicateGroups, FileInfo};

fn file(path: &str, size: u64) -> FileInfo {
    FileInfo { path: FilePath::from_text(path), size, created: None, modified: None }
}

fn make_groups() -> DuplicateGroups {
    vec![vec![file("/dir/a.txt", 5), file("/dir/b.txt", 5)]]
}

fn there() -> FileProbe {
    FileProbe { exists: true, created: None, modified: Some(3) }
}

fn gone() -> FileProbe {
    FileProbe { exists: false, created: None, modified: None }
}

#[test]
fn test_save_load_roundtrip() {
    let dir = FilePath::from_text("/dir");
    let entry = save(&dir, &make_groups());
    let loaded = load(&Some(entry), &dir, &vec![vec![there(), there()]]).unwrap();
    assert_eq!(loaded.len(), 1);
    assert_eq!(loaded[0].len(), 2);
    assert_eq!(loaded[0][0].size, 5);
    assert_eq!(loaded[0][1].path.to_text(), "/dir/b.txt");
    assert_eq!(loaded[0][1].modified, Some(3));
}

#[test]
fn test_load_nonexistent() {
    let result = load(&None, &FilePath::from_text("/dir"), &vec![]);
    assert!(result.is_none());
}

#[test]
fn test_load_filters_missing_files() {
    let dir = FilePath::from_text("/dir");
    let entry = save(&dir, &make_groups());
    let loaded = load(&Some(entry), &dir, &vec![vec![there(), gone()]]);
    // Group filtered out because only 1 file exists (< 2)
    assert!(loaded.unwrap().is_empty());
}

#[test]
fn test_save_multiple_groups() {
    let dir = FilePath::from_text("/dir");
    let groups = vec![
        vec![file("/dir/a.txt", 5), file("/dir/b.txt", 5)],
        vec![file("/dir/c.txt", 6), file("/dir/d.txt", 6)],
    ];
    let entry = save(&dir, &groups);
    assert_eq!(entry.groups[1].size, 6);
    let loaded = load(&Some(entry), &dir, &vec![vec![there(), there()], vec![there(), there()]]);
    assert_eq!(loaded.unwrap().len(), 2);
}

#[test]
fn results_belong_to_a_root() {
    let entry = save(&FilePath::from_text("/dir"), &make_groups());
    assert!(load(&Some(entry), &FilePath::from_text("/other"), &vec![]).is_none());
}

#[test]
fn what_was_not_looked_at_does_not_exist() {
    let dir = FilePath::from_text("/dir");
    let entry = save(&dir, &make_groups());
    assert!(load(&Some(entry), &dir, &vec![vec![there()]]).unwrap().is_empty());
}

#[test]
fn results_are_stored_under_the_hash_of_the_root() {
    let root = FilePath::from_text("/data/żółw");
    let place = cache_path_for(&Some(FilePath::from_text("/home/u")), &root).unwrap();
    let key = xxhash_rust::xxh3::xxh3_64("/data/żółw".as_bytes());
    assert_eq!(place.file.to_text(), format!("/home/u/.dupfinder/{key:x}.bin"));
    assert_eq!(place.dir.to_text(), "/home/u/.dupfinder");
    assert!(cache_path_for(&None, &root).is_none());
}

#[test]
fn roots_are_hashed_as_they_are_written() {
    let home = Some(FilePath::from_text("/home/u/"));
    let root = FilePath::from_text("photos//2024/.");
    let key = xxhash_rust::xxh3::xxh3_64("photos//2024/.".as_bytes());
    let place = cache_path_for(&home, &root).unwrap();
    assert_eq!(place.file.to_text(), format!("/home/u/.dupfinder/{key:x}.bin"));
    // However it is written, it is the same root
    let entry = save(&root, &make_groups());
    let again = FilePath::from_text("photos/2024");
    let probes = vec![vec![FileProbe::skipped(), FileProbe::skipped()]];
    assert!(load(&Some(entry), &again, &probes).is_some());
    assert_ne!(cache_path_for(&home, &again).unwrap().file.to_text(), place.file.to_text());
}

#[test]
fn files_that_are_not_looked_at_are_kept() {
    let dir = FilePath::from_text("/dir");
    let entry = save(&dir, &make_groups());
    let probes = vec![vec![FileProbe::skipped(), FileProbe::skipped()]];
    let loaded = load(&Some(entry), &dir, &probes).unwrap();
    assert_eq!(loaded[0].len(), 2);
    assert_eq!(loaded[0][0].path.to_text(), "/dir/a.txt");
    assert_eq!(loaded[0][0].modified, None);
}
