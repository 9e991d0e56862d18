use std::collections::BTreeMap;

use dupfinder::hash::{
    has_tail, head_hash, head_len, partial_hash, partial_input, sample_hash, verify_plan,
    FullHasher, VerifyPlan,
};
use dupfinder::path::FilePath;
use dupfinder::record::DuplicateGroups;
use dupfinder::scanner::{
    keep_dir, scan_duplicates, DirItem, FileCheck, FileEntry, ScanAction, ScanEvent, ScanPhase,
    ScanProgress, ScanState,
};

/// Files in memory: their paths and contents.
struct Disk {
    root: FilePath,
    files: BTreeMap<String, Vec<u8>>,
}

fn disk(files: &[(&str, &[u8])]) -> Disk {
    Disk {
        root: FilePath::from_text("/r"),
        files: files.iter().map(|(p, c)| (format!("/r/{p}"), c.to_vec())).collect(),
    }
}

impl Disk {
    fn content(&self, path: &FilePath) -> Option<&Vec<u8>> {
        self.files.get(&path.to_text())
    }

    fn head(&self, e: &FileEntry) -> Option<Vec<u8>> {
        let c = self.content(&e.path)?;
        Some(c[..head_len(e.size)].to_vec())
    }

    fn tail(&self, e: &FileEntry) -> Option<Vec<u8>> {
        let c = self.content(&e.path)?;
        if !has_tail(e.size) {
            return None;
        }
        Some(c[c.len() - 4096..].to_vec())
    }

    fn last(&self, e: &FileEntry, plan: &VerifyPlan) -> Option<u64> {
        let c = self.content(&e.path)?;
        match plan {
            VerifyPlan::Nothing => None,
            VerifyPlan::Whole => {
                let mut hasher = FullHasher::new();
                for piece in c.chunks(1000) {
                    hasher.update(&piece.to_vec());
                }
                Some(hasher.digest())
            }
            VerifyPlan::Samples(starts) => {
                let samples: Vec<Vec<u8>> =
                    starts.iter().map(|s| c[*s as usize..*s as usize + 4096].to_vec()).collect();
                Some(sample_hash(&samples))
            }
        }
    }

    fn walk(&self, exclude: &[&str]) -> Vec<(FilePath, Vec<DirItem>)> {
        let exclude: Vec<String> = exclude.iter().map(|s| s.to_string()).collect();
        let mut dirs: BTreeMap<String, Vec<DirItem>> = BTreeMap::new();
        for (name, content) in &self.files {
            let path = FilePath::from_text(name);
            let dir = path.parent().unwrap();
            if dir.components().len() > 2 && !keep_dir(&dir.name_text(), &exclude) {
                continue;
            }
            dirs.entry(dir.to_text()).or_default().push(DirItem {
                path,
                is_file: true,
                size: Some(content.len() as u64),
            });
        }
        dirs.into_iter().map(|(d, items)| (FilePath::from_text(&d), items)).collect()
    }

    /// Runs a scan to its end, with answers for no more than `batch` files at a time.
    fn scan(
        &self,
        state: Option<ScanState>,
        exclude: &[&str],
        fast: Option<u32>,
        batch: usize,
    ) -> (DuplicateGroups, ScanState) {
        let mut s = state.unwrap_or_else(|| ScanState::new(self.root.clone()));
        let mut event = ScanEvent::Nothing;
        loop {
            event = match scan_duplicates(&mut s, event, fast) {
                ScanAction::Walk => {
                    for (dir, items) in self.walk(exclude) {
                        scan_duplicates(&mut s, ScanEvent::DirRead { dir, items: Some(items) }, fast);
                    }
                    ScanEvent::WalkDone
                }
                ScanAction::HashHeads(files) => ScanEvent::Heads(
                    files.iter().take(batch).map(|f| head_hash(&self.head(f))).collect(),
                ),
                ScanAction::HashEnds(files) => ScanEvent::Ends(
                    files
                        .iter()
                        .take(batch)
                        .map(|f| partial_hash(f.size, &self.head(f), &self.tail(f)))
                        .collect(),
                ),
                ScanAction::Verify(groups) => ScanEvent::Verified(
                    groups
                        .iter()
                        .map(|g| {
                            g.files
                                .iter()
                                .map(|f| FileCheck {
                                    hash: self.last(f, &g.plan),
                                    created: None,
                                    modified: Some(7),
                                })
                                .collect()
                        })
                        .collect(),
                ),
                ScanAction::Finished(groups) => return (groups, s),
            };
        }
    }
}

fn test_scan(d: &Disk) -> DuplicateGroups {
    d.scan(None, &[], None, 100).0
}

fn names(groups: &DuplicateGroups) -> Vec<Vec<String>> {
    groups.iter().map(|g| g.iter().map(|f| f.path.to_text()).collect()).collect()
}

#[test]
fn test_finds_duplicates() {
    let content: &[u8] = b"hello world duplicate content";
    let d = disk(&[("a.txt", content), ("sub/b.txt", content), ("unique.txt", b"unique")]);
    let groups = test_scan(&d);
    assert_eq!(groups.len(), 1);
    assert_eq!(groups[0].len(), 2);
    let paths: Vec<String> = groups[0].iter().map(|f| f.path.to_text()).collect();
    assert!(paths.contains(&"/r/a.txt".to_string()));
    assert!(paths.contains(&"/r/sub/b.txt".to_string()));
    assert_eq!(groups[0][0].size, 29);
    assert_eq!(groups[0][0].modified, Some(7));
}

#[test]
fn test_no_duplicates() {
    let groups = test_scan(&disk(&[("a.txt", b"aaa"), ("b.txt", b"bbb")]));
    assert!(groups.is_empty());
}

#[test]
fn test_empty_files_ignored() {
    let groups = test_scan(&disk(&[("a.txt", b""), ("b.txt", b"")]));
    assert!(groups.is_empty());
}

#[test]
fn test_multiple_duplicate_groups() {
    let groups = test_scan(&disk(&[
        ("a1.txt", b"group_a"),
        ("a2.txt", b"group_a"),
        ("b1.txt", b"group_b"),
        ("b2.txt", b"group_b"),
    ]));
    assert_eq!(groups.len(), 2);
    assert_eq!(names(&groups), vec![vec!["/r/a1.txt", "/r/a2.txt"], vec!["/r/b1.txt", "/r/b2.txt"]]);
}

#[test]
fn test_large_file_partial_hash() {
    let content: Vec<u8> = (0..10000).map(|i| (i % 256) as u8).collect();
    let mut diff = content.clone();
    diff[5000] = 255;
    let d = disk(&[("large1.bin", &content), ("large2.bin", &content), ("large3.bin", &diff)]);
    let groups = test_scan(&d);
    assert_eq!(groups.len(), 1);
    assert_eq!(groups[0].len(), 2);
}

#[test]
fn test_resume_from_walk_phase() {
    let content: &[u8] = b"duplicate content here!";
    let d = disk(&[("a.txt", content), ("sub/b.txt", content)]);
    let (g1, state) = d.scan(None, &[], None, 100);
    // Resume with completed state: only the last comparison is made again
    let (g2, _) = d.scan(Some(state), &[], None, 100);
    assert_eq!(g1.len(), g2.len());
    assert_eq!(names(&g1), names(&g2));
}

#[test]
fn test_exclude_pattern() {
    let content: &[u8] = b"same content";
    let d = disk(&[("@Recycle/a.txt", content), ("b.txt", content)]);
    let (groups, _) = d.scan(None, &["@*"], None, 100);
    // Only one file found (the other is in excluded dir), so no duplicates
    assert!(groups.is_empty());
    assert_eq!(d.scan(None, &["?x", "tmp"], None, 100).0.len(), 1);
}

#[test]
fn test_partial_hash_small_file() {
    let h = partial_hash(4, &Some(b"tiny".to_vec()), &None);
    assert!(h.is_some());
}

#[test]
fn test_partial_hash_exactly_4096() {
    let data = vec![0xABu8; 4096];
    let h = partial_hash(4096, &Some(data[..head_len(4096)].to_vec()), &None);
    assert!(h.is_some());
    assert!(!has_tail(4096));
}

#[test]
fn test_partial_hash_large_file() {
    let data = vec![0x42u8; 10000];
    let head = Some(data[..head_len(10000)].to_vec());
    let h = partial_hash(10000, &head, &Some(data[data.len() - 4096..].to_vec()));
    assert!(h.is_some());
    assert!(has_tail(10000));
}

#[test]
fn test_partial_hash_nonexistent() {
    let d = disk(&[]);
    let e = FileEntry { path: FilePath::from_text("/nonexistent/file.bin"), size: 100 };
    let h = partial_hash(100, &d.head(&e), &d.tail(&e));
    assert!(h.is_none());
}

#[test]
fn test_partial_hash_different_middle() {
    // Two files identical in first/last 4096 bytes but different in middle
    // should produce the same partial hash
    let data1 = vec![0u8; 16000];
    let mut data2 = vec![0u8; 16000];
    data2[8000] = 0xFF; // differ only in middle
    let d = disk(&[("a.bin", &data1), ("b.bin", &data2)]);
    let a = FileEntry { path: FilePath::from_text("/r/a.bin"), size: 16000 };
    let b = FileEntry { path: FilePath::from_text("/r/b.bin"), size: 16000 };
    let h1 = partial_hash(16000, &d.head(&a), &d.tail(&a)).unwrap();
    let h2 = partial_hash(16000, &d.head(&b), &d.tail(&b)).unwrap();
    assert_eq!(h1, h2);
}

#[test]
fn test_scan_state_phases() {
    let content: &[u8] = b"duplicate data here";
    let (_, state) = disk(&[("x.txt", content), ("y.txt", content)]).scan(None, &[], None, 100);
    assert_eq!(state.phase, ScanPhase::Done);
    assert!(state.is_done());
}

#[test]
fn test_scan_state_status_summary() {
    let mut s = ScanState::default();
    s.phase = ScanPhase::Walking;
    assert!(s.status_summary().contains("dirs"));

    s.phase = ScanPhase::PartialHashing;
    s.partial_candidates = vec![FileEntry { path: FilePath::from_text("a"), size: 1 }];
    assert!(s.status_summary().contains("partial hash"));

    s.phase = ScanPhase::Done;
    assert!(s.status_summary().contains("Done"));
}

#[test]
fn summaries_in_full() {
    let mut s = ScanState::default();
    assert_eq!(s.phase, ScanPhase::default());
    assert_eq!(s.status_summary(), "0 dirs, 0 files");
    s.phase = ScanPhase::HeadHashing;
    s.head_idx = 1;
    assert_eq!(s.status_summary(), "head hash 1/0");
    s.phase = ScanPhase::PartialHashing;
    assert_eq!(s.status_summary(), "partial hash 0/0");
    s.phase = ScanPhase::FullHashing;
    assert_eq!(s.status_summary(), "0 files, phase: FullHashing");
    s.phase = ScanPhase::Done;
    assert_eq!(s.status_summary(), "0 files, phase: Done");
}

#[test]
fn hashes_are_those_of_the_hash_crate() {
    let data: Vec<u8> = (0..9000u32).map(|i| (i * 7 % 251) as u8).collect();
    let head = data[..4096].to_vec();
    let tail = data[9000 - 4096..].to_vec();
    assert_eq!(head_hash(&Some(head.clone())), Some(xxhash_rust::xxh3::xxh3_64(&head)));
    assert_eq!(head_hash(&None), None);
    let both = [head.clone(), tail.clone()].concat();
    assert_eq!(partial_input(9000, &Some(head.clone()), &Some(tail.clone())), Some(both.clone()));
    assert_eq!(
        partial_hash(9000, &Some(head.clone()), &Some(tail)),
        Some(xxhash_rust::xxh3::xxh3_64(&both))
    );
    assert_eq!(partial_hash(9000, &Some(head), &None), None);
    let mut hasher = FullHasher::new();
    let mut by_pieces = FullHasher::new();
    hasher.update(&data);
    for piece in data.chunks(77) {
        by_pieces.update(&piece.to_vec());
    }
    assert_eq!(hasher.digest(), by_pieces.digest());
    assert_eq!(hasher.digest(), xxhash_rust::xxh3::xxh3_64(&data));
    assert_eq!(sample_hash(&vec![vec![1, 2], vec![3]]), xxhash_rust::xxh3::xxh3_64(&[1, 2, 3]));
}

#[test]
fn samples_are_spread_over_the_middle() {
    assert_eq!(verify_plan(8192, Some(3)), VerifyPlan::Nothing);
    assert_eq!(verify_plan(8193, None), VerifyPlan::Whole);
    // Nothing fits between the two ends
    assert_eq!(verify_plan(8192 + 4095, Some(3)), VerifyPlan::Whole);
    assert_eq!(verify_plan(8192 + 4096, Some(3)), VerifyPlan::Samples(vec![4096]));
    // 20 KB with ten samples: three fit
    assert_eq!(verify_plan(20480, Some(10)), VerifyPlan::Samples(vec![4096, 8192, 12288]));
    assert_eq!(verify_plan(20480, Some(1)), VerifyPlan::Samples(vec![8192]));
    assert_eq!(verify_plan(1 << 30, Some(0)), VerifyPlan::Whole);
    let VerifyPlan::Samples(starts) = verify_plan(1 << 30, Some(5)) else { panic!() };
    assert_eq!(starts.len(), 5);
    for w in starts.windows(2) {
        assert!(w[0] + 4096 <= w[1]);
    }
    assert!(starts[0] >= 4096 && starts[4] + 4096 <= (1 << 30) - 4096);
}

#[test]
fn fast_mode_compares_samples_only() {
    let a = vec![1u8; 40000];
    let mut seen = a.clone();
    seen[20000] = 9; // within the only sample, which is taken in the middle
    let mut unseen = a.clone();
    unseen[5000] = 9; // beside it
    let d = disk(&[("a", &a), ("b", &unseen), ("c", &seen)]);
    assert_eq!(names(&d.scan(None, &[], Some(1), 100).0), vec![vec!["/r/a", "/r/b"]]);
    assert!(d.scan(None, &[], None, 100).0.is_empty());
}

#[test]
fn scans_can_be_interrupted_anywhere() {
    let long = vec![5u8; 9000];
    let mut other = long.clone();
    other[4500] = 6;
    let d = disk(&[
        ("a", &long),
        ("b", &long),
        ("c", &other),
        ("d/e", b"xyz"),
        ("d/f", b"xyz"),
        ("d/g", b"xyy"),
        ("h", b"alone here"),
    ]);
    let (whole, _) = d.scan(None, &[], None, 100);
    let (bits, state) = d.scan(None, &[], None, 1);
    assert_eq!(names(&whole), names(&bits));
    assert_eq!(names(&whole), vec![vec!["/r/a", "/r/b"], vec!["/r/d/e", "/r/d/f"]]);
    assert_eq!(state.files.len(), 7);
    assert_eq!(state.head_candidates.len(), 6);
    assert_eq!(state.partial_candidates.len(), 5);
    // A directory that was read counts once
    let mut s = ScanState::new(d.root.clone());
    for _ in 0..2 {
        for (dir, items) in d.walk(&[]) {
            s.record_dir(dir, Some(items));
        }
    }
    s.record_dir(FilePath::from_text("/r/unreadable"), None);
    assert_eq!(s.files.len(), 7);
    assert_eq!(s.completed_dirs.len(), 3);
    assert_eq!(s.status_summary(), "3 dirs, 7 files");
}

#[test]
fn walks_can_be_cut_short() {
    let d = disk(&[
        ("a", b"xyz"),
        ("d/e", b"xyz"),
        ("d/f", b"uvw"),
        ("g/h", b"uvw"),
        ("g/i", b"xyz"),
    ]);
    let sorted = |groups: &DuplicateGroups| {
        let mut all = names(groups);
        for group in &mut all {
            group.sort();
        }
        all.sort();
        all
    };
    let (whole, _) = d.scan(None, &[], None, 100);
    let mut s = ScanState::new(d.root.clone());
    let (dir, items) = d.walk(&[]).pop().unwrap();
    s.record_dir(dir, Some(items));
    assert_eq!(s.status_summary(), "1 dirs, 2 files");
    let (resumed, state) = d.scan(Some(s), &[], None, 1);
    assert_eq!(state.files[0].path.to_text(), "/r/g/h");
    assert_eq!(state.files.len(), 5);
    assert_ne!(names(&whole), names(&resumed));
    assert_eq!(sorted(&whole), sorted(&resumed));
    assert_eq!(resumed.len(), 2);
}

#[test]
fn what_is_no_file_is_passed_over() {
    let mut s = ScanState::default();
    let item = |name: &str, is_file: bool, size: Option<u64>| DirItem {
        path: FilePath::from_text(name),
        is_file,
        size,
    };
    s.record_dir(
        FilePath::from_text("/r"),
        Some(vec![
            item("/r/link", false, Some(4)),
            item("/r/empty", true, Some(0)),
            item("/r/gone", true, None),
            item("/r/file", true, Some(4)),
        ]),
    );
    assert_eq!(s.files.len(), 1);
    assert_eq!(s.files[0].path.to_text(), "/r/file");
    s.record_dir(FilePath::from_text("/r/"), Some(vec![item("/r/other", true, Some(4))]));
    assert_eq!(s.files.len(), 1);
    assert_eq!(s.completed_dirs.len(), 1);
}

#[test]
fn unreadable_files_are_left_out() {
    let mut s = ScanState::default();
    let entry = |name: &str| FileEntry { path: FilePath::from_text(name), size: 10000 };
    s.files = vec![entry("/a"), entry("/b"), entry("/c"), entry("/d")];
    scan_duplicates(&mut s, ScanEvent::WalkDone, None);
    assert_eq!(s.head_candidates.len(), 4);
    scan_duplicates(&mut s, ScanEvent::Heads(vec![Some(1), None, Some(1), Some(1)]), None);
    assert_eq!(s.phase, ScanPhase::PartialHashing);
    // An event of another stage changes nothing
    scan_duplicates(&mut s, ScanEvent::WalkDone, None);
    assert_eq!(s.phase, ScanPhase::PartialHashing);
    scan_duplicates(&mut s, ScanEvent::Ends(vec![Some(2), Some(2), Some(2), Some(9)]), None);
    assert_eq!(s.phase, ScanPhase::FullHashing);
    let check = |hash: Option<u64>| FileCheck { hash, created: None, modified: None };
    let answers = vec![vec![check(Some(3)), check(None)]];
    // The finding on the third file is missing, so that one is left
    match scan_duplicates(&mut s, ScanEvent::Verified(answers), None) {
        ScanAction::Finished(groups) => assert!(groups.is_empty()),
        _ => unreachable!(),
    }
    let answers = vec![vec![check(Some(3)), check(None), check(Some(3))]];
    match scan_duplicates(&mut s, ScanEvent::Verified(answers), None) {
        ScanAction::Finished(groups) => assert_eq!(names(&groups), vec![vec!["/a", "/d"]]),
        _ => unreachable!(),
    }
}

#[test]
fn progress_follows_the_scan() {
    let mut s = ScanState::default();
    assert_eq!(ScanProgress::of(&s, 0, 0, 0), ScanProgress::new());
    let entry = |name: &str, size: u64| FileEntry { path: FilePath::from_text(name), size };
    s.files = vec![entry("/a", 9000), entry("/b", 9000), entry("/c", 5), entry("/d", 5)];
    assert_eq!(ScanProgress::of(&s, 7, 2, 5).dirs_total, 7);
    assert_eq!(ScanProgress::of(&s, 7, 2, 5).files_found, 4);
    scan_duplicates(&mut s, ScanEvent::WalkDone, None);
    scan_duplicates(&mut s, ScanEvent::Heads(vec![Some(1)]), None);
    let p = ScanProgress::of(&s, 7, 2, 5);
    assert_eq!((p.stage, p.hashed, p.to_hash), (1, 1, 4));
    scan_duplicates(&mut s, ScanEvent::Heads(vec![Some(1); 3]), None);
    let p = ScanProgress::of(&s, 7, 2, 5);
    assert_eq!((p.stage, p.hashed, p.to_hash), (2, 0, 4));
    scan_duplicates(&mut s, ScanEvent::Ends(vec![Some(1); 4]), None);
    let p = ScanProgress::of(&s, 7, 2, 5);
    // Only files that are longer than their ends are read again
    assert_eq!((p.stage, p.hashed, p.to_hash), (3, 0, 2));
    scan_duplicates(&mut s, ScanEvent::Verified(vec![]), None);
    let p = ScanProgress::of(&s, 7, 2, 5);
    assert_eq!((p.stage, p.groups_found, p.dupes_found), (4, 2, 5));
}

#[test]
fn states_belong_to_a_root_and_a_home() {
    let root = FilePath::from_text("/data/files");
    let home = Some(FilePath::from_text("/home/u"));
    let s = ScanState::new(root.clone());
    let place = s.save(&home).unwrap();
    let key = xxhash_rust::xxh3::xxh3_64(b"/data/files");
    assert_eq!(place.dir.to_text(), "/home/u/.dupfinder");
    assert_eq!(place.file.to_text(), format!("/home/u/.dupfinder/{key:x}.scan"));
    assert!(s.save(&None).is_none());
    assert!(ScanState::state_path(&home, &root).unwrap().file.equals(&place.file));
    assert!(ScanState::load(None, &root).is_none());
    assert!(ScanState::load(Some(ScanState::new(root.clone())), &root).is_some());
    assert!(ScanState::load(Some(ScanState::default()), &root).is_none());
}
