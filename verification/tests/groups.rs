use dupfinder::groups::{
    count_listed, groups_fit, retain_min_size, size_stats, sort_groups, stats_fit,
};
use dupfinder::path::FilePath;
use dupfinder::record::{DuplicateGroups, FileInfo};
use dupfinder::report::{dry_run_report, report_csv, wasted_fits};
use dupfinder::tree::SortMode;

fn make_info(path: &str, size: u64) -> FileInfo {
    FileInfo { path: FilePath::from_text(path), size, created: None, modified: None }
}

fn dated(path: &str, seconds: Option<i128>) -> FileInfo {
    FileInfo {
        path: FilePath::from_text(path),
        size: 10,
        created: None,
        modified: seconds.map(|s| s * 1_000_000_000),
    }
}

fn first_paths(groups: &DuplicateGroups) -> Vec<String> {
    groups.iter().map(|g| g[0].path.to_text()).collect()
}

#[test]
fn test_size_stats_single_group() {
    let groups = vec![vec![make_info("a", 100), make_info("b", 100)]];
    let (total, wasted) = size_stats(&groups);
    assert_eq!(total, 200);
    assert_eq!(wasted, 100);
}

#[test]
fn test_size_stats_multiple_groups() {
    let groups = vec![
        vec![make_info("a", 100), make_info("b", 100), make_info("c", 100)],
        vec![make_info("d", 50), make_info("e", 50)],
    ];
    let (total, wasted) = size_stats(&groups);
    assert_eq!(total, 400); // 300 + 100
    assert_eq!(wasted, 250); // 200 + 50
}

#[test]
fn test_size_stats_empty() {
    let groups: DuplicateGroups = vec![];
    let (total, wasted) = size_stats(&groups);
    assert_eq!(total, 0);
    assert_eq!(wasted, 0);
}

#[test]
fn test_sort_groups_by_name() {
    let mut groups = vec![vec![make_info("z.txt", 10)], vec![make_info("a.txt", 20)]];
    sort_groups(&mut groups, SortMode::Name);
    assert_eq!(groups[0][0].path.to_text(), "a.txt");
}

#[test]
fn test_sort_groups_by_size() {
    let mut groups = vec![vec![make_info("small", 10)], vec![make_info("big", 1000)]];
    sort_groups(&mut groups, SortMode::Size);
    assert_eq!(groups[0][0].size, 1000); // largest first
}

#[test]
fn test_sort_groups_by_count() {
    let mut groups = vec![
        vec![make_info("a", 10), make_info("b", 10)],
        vec![make_info("c", 10), make_info("d", 10), make_info("e", 10)],
    ];
    sort_groups(&mut groups, SortMode::Count);
    assert_eq!(groups[0].len(), 3); // most dupes first
}

#[test]
fn test_sort_groups_by_date() {
    let mut groups = vec![vec![dated("old.txt", Some(1000))], vec![dated("new.txt", Some(2000))]];
    sort_groups(&mut groups, SortMode::Date);
    assert_eq!(groups[0][0].path.to_text(), "new.txt"); // newest first
}

#[test]
fn undated_groups_come_last_and_equal_ones_keep_their_order() {
    let mut groups = vec![
        vec![dated("n", None)],
        vec![dated("b", Some(5))],
        vec![dated("m", None)],
        vec![dated("a", Some(5))],
        vec![dated("c", Some(-7))],
    ];
    sort_groups(&mut groups, SortMode::Date);
    assert_eq!(first_paths(&groups), vec!["b", "a", "c", "n", "m"]);
}

#[test]
fn paths_are_sorted_by_their_components() {
    let mut groups: DuplicateGroups =
        ["/a.b", "/a/b", "/a", "../x", "./y", "z", "/a-b/c"].iter().map(|p| vec![make_info(p, 1)]).collect();
    let mut expected: Vec<std::path::PathBuf> =
        ["/a.b", "/a/b", "/a", "../x", "./y", "z", "/a-b/c"].iter().map(|p| p.into()).collect();
    expected.sort();
    sort_groups(&mut groups, SortMode::Name);
    let sorted: Vec<std::path::PathBuf> = first_paths(&groups).iter().map(|p| p.into()).collect();
    assert_eq!(sorted, expected);
}

#[test]
fn small_files_are_left_out() {
    let mut groups =
        vec![vec![make_info("a", 5)], vec![make_info("b", 10)], vec![make_info("c", 11)]];
    retain_min_size(&mut groups, 10);
    assert_eq!(first_paths(&groups), vec!["b", "c"]);
}

#[test]
fn totals_that_do_not_fit_are_noticed() {
    let big = vec![vec![make_info("a", u64::MAX), make_info("b", u64::MAX)]];
    assert!(!stats_fit(&big));
    assert!(wasted_fits(&big));
    let bigger = vec![vec![make_info("a", u64::MAX), make_info("b", 1), make_info("c", 1)]];
    assert!(!wasted_fits(&bigger));
    assert!(groups_fit(&big));
    assert!(!groups_fit(&vec![vec![]]));
    assert_eq!(count_listed(&bigger), 3);
}

#[test]
fn report_for_programs() {
    let groups = vec![
        vec![make_info("/r/a.txt", 5), make_info("/r/s/b.txt", 5)],
        vec![make_info("/other/c", 7)],
    ];
    assert_eq!(
        report_csv(&groups, &FilePath::from_text("/r")),
        "Group,Size,Path\n1,5,a.txt\n1,5,s/b.txt\n2,7,/other/c"
    );
    assert_eq!(report_csv(&vec![], &FilePath::from_text("/r")), "Group,Size,Path");
}

#[test]
fn report_for_people() {
    let groups = vec![
        vec![make_info("/r/a.txt", 1536), make_info("/r/s/b.txt", 1536)],
        vec![make_info("/other/c", 100), make_info("/r/d", 100), make_info("/r/e", 100)],
    ];
    let root = FilePath::from_text("/r");
    assert_eq!(
        dry_run_report(&groups, &root, true),
        vec![
            "Group 1 (1.5 KB):",
            "  a.txt",
            "  s/b.txt",
            "Group 2 (100.0 B):",
            "  /other/c",
            "  d",
            "  e",
            "",
            "2 groups, 1.7 KB wasted space",
        ]
    );
    assert_eq!(dry_run_report(&groups, &root, false)[1], "  /r/a.txt");
}
