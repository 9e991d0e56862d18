use dupfinder::path::FilePath;
use dupfinder::record::FileInfo;
use dupfinder::tree::{
    build_tree, build_tree_indexed, count_files, dir_total_size, SortMode, TreeNode,
};

fn path(s: &str) -> FilePath {
    FilePath::from_text(s)
}

fn make_info(p: &str) -> FileInfo {
    FileInfo { path: path(p), size: 100, created: None, modified: None }
}

fn file(p: &str, size: u64, modified: Option<i128>) -> FileInfo {
    FileInfo { path: path(p), size, created: None, modified }
}

#[test]
fn test_build_tree() {
    let groups = vec![vec![make_info("/root/a/file.txt"), make_info("/root/b/file.txt")]];
    let tree = build_tree(&groups, &path("/root"));
    let flat = tree.flatten();
    assert_eq!(flat.len(), 4); // dir a, file, dir b, file
}

#[test]
fn test_toggle_expand() {
    let groups = vec![vec![make_info("/root/a/file.txt"), make_info("/root/b/file.txt")]];
    let mut tree = build_tree(&groups, &path("/root"));
    let flat = tree.flatten();
    assert_eq!(flat.len(), 4);

    tree.toggle_expand(&path("/root/a"));
    let flat = tree.flatten();
    assert_eq!(flat.len(), 3); // dir a (collapsed), dir b, file
}

#[test]
fn test_deep_nesting() {
    let groups = vec![vec![make_info("/root/a/b/c/d/file.txt"), make_info("/root/x/file.txt")]];
    let tree = build_tree(&groups, &path("/root"));
    let flat = tree.flatten();
    // a(0), b(1), c(2), d(3), file.txt(4), x(0), file.txt(1)
    assert_eq!(flat.len(), 7);
    assert_eq!(flat[0].0, 0); // "a" at depth 0
    assert_eq!(flat[3].0, 3); // "d" at depth 3
    assert_eq!(flat[4].0, 4); // file at depth 4
}

#[test]
fn test_multiple_groups() {
    let groups = vec![
        vec![make_info("/root/a.txt"), make_info("/root/b.txt")],
        vec![make_info("/root/sub/c.txt"), make_info("/root/sub/d.txt")],
    ];
    let tree = build_tree(&groups, &path("/root"));
    let flat = tree.flatten();
    // a.txt, b.txt, sub/, c.txt, d.txt = 5
    assert_eq!(flat.len(), 5);
}

#[test]
fn test_flatten_ordering_is_sorted() {
    let groups = vec![vec![
        make_info("/root/z.txt"),
        make_info("/root/a.txt"),
        make_info("/root/m.txt"),
    ]];
    let tree = build_tree(&groups, &path("/root"));
    let flat = tree.flatten();
    let names: Vec<&str> = flat.iter().map(|(_, n)| n.name.as_str()).collect();
    assert_eq!(names, vec!["a.txt", "m.txt", "z.txt"]);
}

#[test]
fn test_collapsed_hides_children() {
    let groups = vec![vec![make_info("/root/dir/a.txt"), make_info("/root/dir/b.txt")]];
    let mut tree = build_tree(&groups, &path("/root"));
    assert_eq!(tree.flatten().len(), 3); // dir, a.txt, b.txt

    tree.toggle_expand(&path("/root/dir"));
    assert_eq!(tree.flatten().len(), 1); // just dir (collapsed)
}

#[test]
fn test_insert_file_group_index() {
    let groups = vec![
        vec![make_info("/root/a.txt"), make_info("/root/b.txt")],
        vec![make_info("/root/c.txt"), make_info("/root/d.txt")],
    ];
    let tree = build_tree(&groups, &path("/root"));
    let flat = tree.flatten();
    // First group files have group_index 0, second group has 1
    assert_eq!(flat[0].1.group_index, Some(0));
    assert_eq!(flat[2].1.group_index, Some(1));
}

#[test]
fn test_flatten_sorted_by_size() {
    let groups = vec![vec![
        FileInfo { path: path("/root/small.txt"), size: 10, created: None, modified: None },
        FileInfo { path: path("/root/big.txt"), size: 1000, created: None, modified: None },
    ]];
    let tree = build_tree(&groups, &path("/root"));
    let flat = tree.flatten_sorted(SortMode::Size);
    // Largest first
    assert_eq!(flat[0].1.name, "big.txt");
    assert_eq!(flat[1].1.name, "small.txt");
}

#[test]
fn test_flatten_sorted_by_date() {
    let old = Some(1000 * 1_000_000_000i128);
    let new = Some(2000 * 1_000_000_000i128);
    let groups = vec![vec![
        FileInfo { path: path("/root/old.txt"), size: 10, created: None, modified: old },
        FileInfo { path: path("/root/new.txt"), size: 10, created: None, modified: new },
    ]];
    let tree = build_tree(&groups, &path("/root"));
    let flat = tree.flatten_sorted(SortMode::Date);
    // Newest first
    assert_eq!(flat[0].1.name, "new.txt");
    assert_eq!(flat[1].1.name, "old.txt");
}

#[test]
fn test_flatten_sorted_by_count() {
    let groups = vec![
        vec![make_info("/root/dir_many/a.txt"), make_info("/root/dir_few/b.txt")],
        vec![make_info("/root/dir_many/c.txt"), make_info("/root/dir_few/d.txt")],
        vec![make_info("/root/dir_many/e.txt"), make_info("/root/dir_few/f.txt")],
    ];
    let tree = build_tree(&groups, &path("/root"));
    let flat = tree.flatten_sorted(SortMode::Count);
    // Both dirs have 3 files each, so order is by count (equal) then stable
    assert!(flat[0].1.is_dir);
}

#[test]
fn test_count_files_leaf() {
    let groups = vec![vec![make_info("/root/a.txt"), make_info("/root/b.txt")]];
    let tree = build_tree(&groups, &path("/root"));
    // Root has 2 file children
    assert_eq!(count_files(&tree), 2);
}

#[test]
fn test_count_files_nested() {
    let groups = vec![vec![
        make_info("/root/dir/a.txt"),
        make_info("/root/dir/b.txt"),
        make_info("/root/c.txt"),
    ]];
    let tree = build_tree(&groups, &path("/root"));
    // Root: dir(2 files) + c.txt = 3 total
    assert_eq!(count_files(&tree), 3);
}

fn shape(tree: &TreeNode, mode: SortMode) -> Vec<(usize, String)> {
    tree.flatten_sorted(mode).iter().map(|(d, n)| (*d, n.name.clone())).collect()
}

#[test]
fn equal_ranks_keep_the_order_of_names() {
    let groups = vec![vec![
        make_info("/r/one/a"),
        make_info("/r/many/b"),
        make_info("/r/many/c"),
        make_info("/r/few/d"),
    ]];
    let tree = build_tree(&groups, &path("/r"));
    let names: Vec<String> = shape(&tree, SortMode::Count).into_iter().map(|r| r.1).collect();
    assert_eq!(names, vec!["many", "b", "c", "few", "d", "one", "a"]);
    assert_eq!(dir_total_size(&tree), 400);
}

#[test]
fn every_order_shows_the_same_rows() {
    let groups = vec![
        vec![file("/r/one/a", 3, Some(1)), file("/r/many/b", 3, Some(5))],
        vec![file("/r/many/c", 9, None), file("/r/z", 9, Some(2)), file("/r/few/d", 9, Some(4))],
    ];
    let mut tree = build_tree(&groups, &path("/r"));
    tree.toggle_expand(&path("/r/few"));
    let rows = |mode: SortMode| {
        let mut all = shape(&tree, mode);
        all.sort();
        all
    };
    assert_eq!(rows(SortMode::Name).len(), 7);
    for mode in [SortMode::Size, SortMode::Date, SortMode::Count] {
        assert_ne!(shape(&tree, mode), shape(&tree, SortMode::Name));
        assert_eq!(rows(mode), rows(SortMode::Name));
    }
}

#[test]
fn files_outside_the_root_are_left_out() {
    let groups = vec![vec![make_info("/root/a"), make_info("/other/b"), make_info("/rootless/c")]];
    let tree = build_tree(&groups, &path("/root"));
    assert_eq!(shape(&tree, SortMode::Name), vec![(0, "a".to_string())]);
}

#[test]
fn toggling_twice_and_setting_all() {
    let groups = vec![vec![make_info("/r/a/b/f"), make_info("/r/a/g")]];
    let mut tree = build_tree(&groups, &path("/r"));
    let before = shape(&tree, SortMode::Name);
    tree.toggle_expand(&path("/r/a/b"));
    assert_eq!(tree.flatten().len(), 3);
    tree.toggle_expand(&path("/r/a/b"));
    assert_eq!(shape(&tree, SortMode::Name), before);
    tree.set_all_expanded(false);
    assert_eq!(shape(&tree, SortMode::Name), vec![(0, "a".to_string())]);
    tree.set_all_expanded(true);
    assert_eq!(shape(&tree, SortMode::Name), before);
}

#[test]
fn first_file_at_a_path_stays() {
    let mut tree = TreeNode::new_dir("", path("/r"));
    tree.insert_file(&path("f"), make_info("/r/f"), 3);
    tree.insert_file(&path("f"), make_info("/r/f"), 4);
    tree.insert_file(&path(""), make_info("/r"), 5);
    assert_eq!(tree.flatten().len(), 1);
    assert_eq!(tree.flatten()[0].1.group_index, Some(3));
}

#[test]
fn directories_are_written_behind_the_root() {
    let groups = vec![vec![make_info("/r/x//d/./a"), make_info("/r//x/e/b")]];
    let mut tree = build_tree(&groups, &path("/r//x/."));
    let shown: Vec<String> = tree.flatten().iter().map(|(_, n)| n.path.to_text()).collect();
    assert_eq!(shown, vec!["/r//x/./d", "/r/x//d/./a", "/r//x/./e", "/r//x/e/b"]);
    tree.toggle_expand(&path("/r/x/d/"));
    assert_eq!(tree.flatten().len(), 3);
    // Neither a file nor what is not there is expanded or collapsed
    tree.toggle_expand(&path("/r/x/e/b"));
    tree.toggle_expand(&path("/r/x/f"));
    assert_eq!(tree.flatten().len(), 3);
}

#[test]
fn groups_keep_their_numbers() {
    let a = vec![make_info("/r/a")];
    let b = vec![make_info("/r/b")];
    let tree = build_tree_indexed(&vec![(7, &b), (2, &a)], &path("/r"));
    let flat = tree.flatten();
    assert_eq!(flat[0].1.group_index, Some(2));
    assert_eq!(flat[1].1.group_index, Some(7));
    assert_eq!(flat[1].1.path.to_text(), "/r/b");
}
