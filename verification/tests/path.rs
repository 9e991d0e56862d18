use dupfinder::path::FilePath;
use dupfinder::path_set::PathSet;
use std::path::Path;

const SAMPLES: [&str; 40] = [
    "", "/", ".", "..", "a", "/a", "a/", "/a/", "a/b", "a//b", "/a/./b", "./a", "./.", "././a", "a/.",
    "a/..", "../a", "/..", "//a", "...", "a/b/c.txt", "/a/b", ".a", "/.", "//", "///a//", "./", ".//",
    ".//a", "./a/", "a/./", "a/.//b", "/./a", "/a/./b//.", "a//b/./c/", "./a/../b//", "/a//b/c", "a/./b/c",
    "./a/b", "././a//b",
];

#[test]
fn paths_are_taken_apart_like_those_of_the_standard_library() {
    for s in SAMPLES {
        let ours = FilePath::from_text(s);
        assert_eq!(ours.to_text(), s);
        assert_eq!(ours.to_bytes(), s.as_bytes().to_vec());
        let theirs: Vec<String> =
            Path::new(s).components().map(|c| c.as_os_str().to_str().unwrap().to_string()).collect();
        let parts: Vec<String> = ours.components().iter().map(|c| c.to_text()).collect();
        assert_eq!(parts, theirs, "{s}");
        let parent = ours.parent().map(|p| p.to_text());
        let expected = Path::new(s).parent().map(|p| p.to_str().unwrap().to_string());
        assert_eq!(parent, expected, "{s}");
        let name = Path::new(s).file_name().map(|n| n.to_str().unwrap()).unwrap_or("");
        assert_eq!(ours.name_text(), name, "{s}");
    }
}

#[test]
fn paths_are_put_together_like_those_of_the_standard_library() {
    for a in SAMPLES {
        for b in SAMPLES {
            let pa = FilePath::from_text(a);
            let pb = FilePath::from_text(b);
            assert_eq!(pa.equals(&pb), Path::new(a) == Path::new(b), "{a} {b}");
            assert_eq!(pa.is_before(&pb), Path::new(a) < Path::new(b), "{a} {b}");
            let joined = Path::new(a).join(b);
            assert_eq!(pa.join(&pb).to_text(), joined.to_str().unwrap(), "{a} {b}");
            assert_eq!(pa.join_text(b).to_text(), joined.to_str().unwrap(), "{a} {b}");
            let stripped = Path::new(a).strip_prefix(b).ok();
            let expected = stripped.map(|p| p.to_str().unwrap().to_string());
            let ours = pa.strip_prefix(&pb).map(|p| p.to_text());
            assert_eq!(ours, expected, "{a} {b}");
            if let Some(rel) = pa.strip_prefix(&pb) {
                assert!(pb.join(&rel).equals(&pa), "{a} {b}");
            }
        }
    }
}

#[test]
fn paths_outside_stay_whole() {
    let p = FilePath::from_text("/a/b");
    assert_eq!(p.within(&FilePath::from_text("/a")).to_text(), "b");
    assert_eq!(p.within(&FilePath::from_text("/c")).to_text(), "/a/b");
}

#[test]
fn sets_keep_the_first_writing() {
    let mut set = PathSet::new();
    assert!(set.insert(FilePath::from_text("/a//b/")));
    assert!(!set.insert(FilePath::from_text("/a/b")));
    assert!(set.contains(&FilePath::from_text("/a/./b")));
    assert_eq!(set.list()[0].to_text(), "/a//b/");
    set.flip(FilePath::from_text("/a/b"));
    assert!(set.is_empty());
    set.flip(FilePath::from_text("/a/b"));
    assert_eq!(set.list()[0].to_text(), "/a/b");
}

#[test]
fn sets_of_paths() {
    let mut set = PathSet::new();
    assert!(set.is_empty());
    for s in ["/b", "/a/x", "/a", "/c", "/a"] {
        set.insert(FilePath::from_text(s));
    }
    let listed: Vec<String> = set.list().iter().map(|p| p.to_text()).collect();
    assert_eq!(listed, vec!["/a", "/a/x", "/b", "/c"]);
    assert!(!set.insert(FilePath::from_text("/c")));
    assert!(set.remove(&FilePath::from_text("/a")));
    assert!(!set.remove(&FilePath::from_text("/a")));
    assert!(!set.contains(&FilePath::from_text("/a")));
    assert!(set.contains(&FilePath::from_text("/a/x")));
    set.flip(FilePath::from_text("/b"));
    set.flip(FilePath::from_text("/d"));
    let listed: Vec<String> = set.list().iter().map(|p| p.to_text()).collect();
    assert_eq!(listed, vec!["/a/x", "/c", "/d"]);
    assert_eq!(set.len(), 3);
    set.flip(FilePath::from_text("/b"));
    set.flip(FilePath::from_text("/b"));
    assert_eq!(set.len(), 3);
}
