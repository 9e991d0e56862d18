//! The search for duplicate files: which files are compared, in which stages, and what is found.
use vstd::prelude::*;

use crate::glob::{glob, glob_match};
use crate::grouping::{
    classes, classes_of, classes_share_a_key, classes_view, is_shared, lemma_filter_upto,
    lemma_members_in_range, shared, upto,
};
use crate::hash::{plan_of, verify_plan, PARTIAL_HASH_SIZE, PlanView, VerifyPlan};
use crate::location::{place_of, store_dir, store_file, Place};
use crate::order::positions;
use crate::path::{written_path, FilePath, PathView, Step};
use crate::path_set::PathSet;
use crate::record::{group_view, groups_view, DuplicateGroups, FileInfo, FileView};
use crate::sequence::{lemma_filter_ends, lemma_take_filter};
use crate::text::{decimal, push_decimal};

verus! {

// ---------------------------------------------------------------------------
// The state of a scan
// ---------------------------------------------------------------------------

/// Current phase of the scanning process.
#[derive(Debug, Clone, Copy, PartialEq, Eq, Structural)]
pub enum ScanPhase {
    Walking,
    HeadHashing,
    PartialHashing,
    FullHashing,
    Done,
}

impl Default for ScanPhase {
    fn default() -> (r: Self)
        ensures
            r == ScanPhase::Walking,
    {
        ScanPhase::Walking
    }
}

/// A file that was found: its path and its size.
#[derive(Debug)]
pub struct FileEntry {
    pub path: FilePath,
    pub size: u64,
}

/// What a `FileEntry` stands for.
pub struct EntryView {
    pub path: Seq<Step>,
    /// How the path is written.
    pub written: Seq<u8>,
    pub size: u64,
}

impl View for FileEntry {
    type V = EntryView;

    open spec fn view(&self) -> EntryView {
        EntryView { path: self.path@, written: self.path.written@, size: self.size }
    }
}

impl Clone for FileEntry {
    fn clone(&self) -> (r: Self)
        ensures
            r@ == self@,
    {
        FileEntry { path: self.path.clone(), size: self.size }
    }
}

/// What a sequence of entries stands for.
pub open spec fn entries_view(entries: Seq<FileEntry>) -> Seq<EntryView> {
    entries.map_values(|e: FileEntry| e@)
}

/// What a file with the hash of a part of it stands for.
pub struct HashedView {
    pub path: Seq<Step>,
    /// How the path is written.
    pub written: Seq<u8>,
    pub size: u64,
    pub hash: u64,
}

/// What a sequence of files with hashes stands for.
pub open spec fn hashed_view(results: Seq<(FilePath, u64, u64)>) -> Seq<HashedView> {
    results.map_values(
        |r: (FilePath, u64, u64)|
            HashedView { path: r.0@, written: r.0.written@, size: r.1, hash: r.2 },
    )
}

/// How far a scan has come, and what it has found out. A scan that was interrupted goes on from
/// here.
#[derive(Debug)]
pub struct ScanState {
    pub root: FilePath,
    pub phase: ScanPhase,
    /// Directories that were read completely.
    pub completed_dirs: PathSet,
    /// All files that were found.
    pub files: Vec<FileEntry>,
    /// Files that share their size with another.
    pub head_candidates: Vec<FileEntry>,
    /// Files whose start could be hashed: path, size and hash.
    pub head_results: Vec<(FilePath, u64, u64)>,
    /// Which of the candidates is next to have its start hashed.
    pub head_idx: usize,
    /// Files that share their size and the hash of their start with another.
    pub partial_candidates: Vec<FileEntry>,
    /// Files whose two ends could be hashed: path, size and hash.
    pub partial_results: Vec<(FilePath, u64, u64)>,
    /// Which of the candidates is next to have its ends hashed.
    pub partial_idx: usize,
}

/// What a `ScanState` stands for.
pub struct StateView {
    pub root: PathView,
    pub phase: ScanPhase,
    pub completed_dirs: Set<Seq<Step>>,
    pub files: Seq<EntryView>,
    pub head_candidates: Seq<EntryView>,
    pub head_results: Seq<HashedView>,
    pub head_idx: int,
    pub partial_candidates: Seq<EntryView>,
    pub partial_results: Seq<HashedView>,
    pub partial_idx: int,
}

impl View for ScanState {
    type V = StateView;

    open spec fn view(&self) -> StateView {
        StateView {
            root: self.root.full(),
            phase: self.phase,
            completed_dirs: self.completed_dirs@.dom(),
            files: entries_view(self.files@),
            head_candidates: entries_view(self.head_candidates@),
            head_results: hashed_view(self.head_results@),
            head_idx: self.head_idx as int,
            partial_candidates: entries_view(self.partial_candidates@),
            partial_results: hashed_view(self.partial_results@),
            partial_idx: self.partial_idx as int,
        }
    }
}

/// The state of a scan that has not begun.
pub open spec fn fresh_state(root: PathView) -> StateView {
    StateView {
        root,
        phase: ScanPhase::Walking,
        completed_dirs: Set::empty(),
        files: seq![],
        head_candidates: seq![],
        head_results: seq![],
        head_idx: 0,
        partial_candidates: seq![],
        partial_results: seq![],
        partial_idx: 0,
    }
}

/// What a phase is called.
pub open spec fn phase_name(phase: ScanPhase) -> Seq<char> {
    match phase {
        ScanPhase::Walking => "Walking"@,
        ScanPhase::HeadHashing => "HeadHashing"@,
        ScanPhase::PartialHashing => "PartialHashing"@,
        ScanPhase::FullHashing => "FullHashing"@,
        ScanPhase::Done => "Done"@,
    }
}

/// How far a scan has come, in words.
pub open spec fn summary(s: StateView) -> Seq<char> {
    match s.phase {
        ScanPhase::Walking => decimal(s.completed_dirs.len()) + " dirs, "@ + decimal(s.files.len())
            + " files"@,
        ScanPhase::HeadHashing => "head hash "@ + decimal(s.head_idx as nat) + "/"@ + decimal(
            s.head_candidates.len(),
        ),
        ScanPhase::PartialHashing => "partial hash "@ + decimal(s.partial_idx as nat) + "/"@
            + decimal(s.partial_candidates.len()),
        _ => decimal(s.files.len()) + " files, phase: "@ + phase_name(s.phase),
    }
}

impl Default for ScanState {
    fn default() -> (r: Self)
        ensures
            r.completed_dirs.wf(),
            r@ == fresh_state(written_path(seq![])),
    {
        ScanState::new(FilePath::empty())
    }
}

impl ScanState {
    /// The state of a scan that has not begun.
    pub fn new(root: FilePath) -> (r: ScanState)
        ensures
            r.completed_dirs.wf(),
            r@ == fresh_state(root.full()),
    {
        let r = ScanState {
            root,
            phase: ScanPhase::Walking,
            completed_dirs: PathSet::new(),
            files: Vec::new(),
            head_candidates: Vec::new(),
            head_results: Vec::new(),
            head_idx: 0,
            partial_candidates: Vec::new(),
            partial_results: Vec::new(),
            partial_idx: 0,
        };
        assert(r@.completed_dirs =~= Set::<Seq<Step>>::empty());
        assert(r@.files =~= Seq::<EntryView>::empty());
        assert(r@.head_candidates =~= Seq::<EntryView>::empty());
        assert(r@.partial_candidates =~= Seq::<EntryView>::empty());
        assert(r@.head_results =~= Seq::<HashedView>::empty());
        assert(r@.partial_results =~= Seq::<HashedView>::empty());
        r
    }

    /// The stored state of a scan of `root`: what was decoded, where it is one of that root.
    pub fn load(decoded: Option<ScanState>, root: &FilePath) -> (r: Option<ScanState>)
        ensures
            match decoded {
                Some(s) => if s@.root.steps == root@ {
                    r == Some(s)
                } else {
                    r is None
                },
                None => r is None,
            },
    {
        match decoded {
            Some(s) => if s.root.equals(root) {
                Some(s)
            } else {
                None
            },
            None => None,
        }
    }

    /// How far the scan has come, in words.
    pub fn status_summary(&self) -> (r: String)
        requires
            self.completed_dirs.wf(),
        ensures
            r@ == summary(self@),
    {
        let mut r = String::new();
        match self.phase {
            ScanPhase::Walking => {
                push_decimal(&mut r, self.completed_dirs.len() as u64);
                r.append(" dirs, ");
                push_decimal(&mut r, self.files.len() as u64);
                r.append(" files");
            },
            ScanPhase::HeadHashing => {
                r.append("head hash ");
                push_decimal(&mut r, self.head_idx as u64);
                r.append("/");
                push_decimal(&mut r, self.head_candidates.len() as u64);
            },
            ScanPhase::PartialHashing => {
                r.append("partial hash ");
                push_decimal(&mut r, self.partial_idx as u64);
                r.append("/");
                push_decimal(&mut r, self.partial_candidates.len() as u64);
            },
            ScanPhase::FullHashing => {
                push_decimal(&mut r, self.files.len() as u64);
                r.append(" files, phase: ");
                r.append("FullHashing");
            },
            ScanPhase::Done => {
                push_decimal(&mut r, self.files.len() as u64);
                r.append(" files, phase: ");
                r.append("Done");
            },
        }
        assert(r@ =~= summary(self@));
        r
    }

    /// Whether the scan has come to its end.
    pub fn is_done(&self) -> (r: bool)
        ensures
            r == (self@.phase == ScanPhase::Done),
    {
        self.phase == ScanPhase::Done
    }
}

// ---------------------------------------------------------------------------
// Walking
// ---------------------------------------------------------------------------

/// Whether the walk goes into a directory of that name: no pattern leaves it out.
pub open spec fn kept_dir(name: Seq<char>, exclude: Seq<String>) -> bool {
    forall|i: int| 0 <= i < exclude.len() ==> !glob((#[trigger] exclude[i])@, name)
}

/// Whether the walk goes into a directory of that name.
pub fn keep_dir(name: &str, exclude: &Vec<String>) -> (r: bool)
    ensures
        r == kept_dir(name@, exclude@),
        r <==> !(exists|i: int| 0 <= i < exclude@.len() && glob((#[trigger] exclude@[i])@, name@)),
{
    let mut i: usize = 0;
    while i < exclude.len()
        invariant
            i <= exclude@.len(),
            forall|j: int| 0 <= j < i ==> !glob((#[trigger] exclude@[j])@, name@),
        decreases exclude@.len() - i,
    {
        if glob_match(exclude[i].as_str(), name) {
            assert(glob(exclude@[i as int]@, name@));
            return false;
        }
        i += 1;
    }
    true
}

/// One thing in a directory: its path, whether it is a file, and its size where it could be had.
#[derive(Debug)]
pub struct DirItem {
    pub path: FilePath,
    pub is_file: bool,
    pub size: Option<u64>,
}

/// Whether a thing in a directory is a file that is compared: one that is not empty.
pub open spec fn is_compared(item: DirItem) -> bool {
    item.is_file && match item.size {
        Some(size) => size > 0,
        None => false,
    }
}

/// The entry of a file in a directory.
pub open spec fn item_entry(item: DirItem) -> EntryView {
    EntryView { path: item.path@, written: item.path.written@, size: item.size->0 }
}

/// The files of a directory that are compared.
pub open spec fn compared(items: Seq<DirItem>) -> Seq<EntryView> {
    items.filter(|i: DirItem| is_compared(i)).map_values(|i: DirItem| item_entry(i))
}

/// The state once a directory was read, with `None` where it could not be. A directory that was
/// read before adds nothing.
pub open spec fn dir_recorded(s: StateView, dir: Seq<Step>, items: Option<Seq<DirItem>>) -> StateView {
    if s.completed_dirs.contains(dir) {
        s
    } else {
        StateView {
            completed_dirs: s.completed_dirs.insert(dir),
            files: match items {
                Some(v) => s.files + compared(v),
                None => s.files,
            },
            ..s
        }
    }
}

/// What the items of a directory that was perhaps read are.
pub open spec fn items_view(items: Option<Vec<DirItem>>) -> Option<Seq<DirItem>> {
    match items {
        Some(v) => Some(v@),
        None => None,
    }
}

impl ScanState {
    /// Takes down what was found in a directory.
    pub fn record_dir(&mut self, dir: FilePath, items: Option<Vec<DirItem>>)
        requires
            old(self).completed_dirs.wf(),
        ensures
            final(self).completed_dirs.wf(),
            final(self)@ == dir_recorded(old(self)@, dir@, items_view(items)),
    {
        if !self.completed_dirs.insert(dir) {
            return;
        }
        assert(self@.completed_dirs =~= old(self)@.completed_dirs.insert(dir@));
        let items = match items {
            Some(v) => v,
            None => {
                return;
            },
        };
        let ghost before = self@.files;
        let ghost p = |i: DirItem| is_compared(i);
        let ghost f = |i: DirItem| item_entry(i);
        let mut i: usize = 0;
        proof {
            lemma_filter_ends(items@, p);
            assert(self@.files =~= before + items@.take(0).filter(p).map_values(f));
        }
        while i < items.len()
            invariant
                i <= items@.len(),
                p == (|i: DirItem| is_compared(i)),
                f == (|i: DirItem| item_entry(i)),
                entries_view(self.files@) == before + items@.take(i as int).filter(p).map_values(f),
                *self == (ScanState {
                    files: self.files,
                    completed_dirs: self.completed_dirs,
                    ..*old(self)
                }),
                self.completed_dirs.wf(),
                self.completed_dirs@.dom() == old(self).completed_dirs@.dom().insert(dir@),
            decreases items@.len() - i,
        {
            proof {
                lemma_take_filter(items@, p, i as int);
            }
            let ghost files0 = entries_view(self.files@);
            if items[i].is_file {
                if let Some(size) = items[i].size {
                    if size > 0 {
                        let entry = FileEntry { path: items[i].path.clone(), size };
                        let ghost e = entry@;
                        self.files.push(entry);
                        assert(entries_view(self.files@) =~= files0.push(e));
                    }
                }
            }
            i += 1;
            assert(entries_view(self.files@) =~= before + items@.take(i as int).filter(
                p,
            ).map_values(f));
        }
        proof {
            lemma_filter_ends(items@, p);
        }
    }
}

// ---------------------------------------------------------------------------
// Candidates
// ---------------------------------------------------------------------------

/// The entries whose key is also that of another.
pub open spec fn picked(entries: Seq<EntryView>, keys: Seq<(u64, u64)>) -> Seq<EntryView> {
    upto(keys.len()).filter(|i: int| is_shared(keys, i)).map_values(|i: int| entries[i])
}

/// What files are told apart by at first: their sizes.
pub open spec fn size_keys(files: Seq<EntryView>) -> Seq<(u64, u64)> {
    files.map_values(|f: EntryView| (f.size, 0u64))
}

/// What files are told apart by once they are hashed: their sizes and hashes.
pub open spec fn result_keys(results: Seq<HashedView>) -> Seq<(u64, u64)> {
    results.map_values(|r: HashedView| (r.size, r.hash))
}

/// The entry of a hashed file.
pub open spec fn entry_of(r: HashedView) -> EntryView {
    EntryView { path: r.path, written: r.written, size: r.size }
}

/// The entries of hashed files.
pub open spec fn result_entries(results: Seq<HashedView>) -> Seq<EntryView> {
    results.map_values(|r: HashedView| entry_of(r))
}

/// The files that share their size with another.
pub open spec fn same_sized(files: Seq<EntryView>) -> Seq<EntryView> {
    picked(files, size_keys(files))
}

/// The files that share their size and hash with another.
pub open spec fn same_hashed(results: Seq<HashedView>) -> Seq<EntryView> {
    picked(result_entries(results), result_keys(results))
}

fn pick(entries: &Vec<FileEntry>, keys: &Vec<(u64, u64)>) -> (r: Vec<FileEntry>)
    requires
        entries@.len() == keys@.len(),
    ensures
        entries_view(r@) == picked(entries_view(entries@), keys@),
{
    let flags = shared(keys);
    let ghost views = entries_view(entries@);
    let ghost all = upto(keys@.len());
    let ghost p = |i: int| is_shared(keys@, i);
    let ghost f = |i: int| views[i];
    let mut out: Vec<FileEntry> = Vec::new();
    let mut i: usize = 0;
    proof {
        lemma_filter_ends(all, p);
        assert(entries_view(out@) =~= all.take(0).filter(p).map_values(f));
    }
    while i < keys.len()
        invariant
            i <= keys@.len() == entries@.len() == flags@.len(),
            views == entries_view(entries@),
            all == upto(keys@.len()),
            p == (|i: int| is_shared(keys@, i)),
            f == (|i: int| views[i]),
            forall|i: int| 0 <= i < keys@.len() ==> #[trigger] flags@[i] == is_shared(keys@, i),
            entries_view(out@) == all.take(i as int).filter(p).map_values(f),
        decreases keys@.len() - i,
    {
        let ghost out0 = entries_view(out@);
        proof {
            lemma_take_filter(all, p, i as int);
        }
        if flags[i] {
            out.push(entries[i].clone());
            assert(entries_view(out@) =~= out0.push(views[i as int]));
        }
        i += 1;
        assert(entries_view(out@) =~= all.take(i as int).filter(p).map_values(f));
    }
    proof {
        lemma_filter_ends(all, p);
    }
    out
}

fn pick_same_sized(files: &Vec<FileEntry>) -> (r: Vec<FileEntry>)
    ensures
        entries_view(r@) == same_sized(entries_view(files@)),
{
    let mut keys: Vec<(u64, u64)> = Vec::new();
    let mut i: usize = 0;
    while i < files.len()
        invariant
            i <= files@.len(),
            keys@.len() == i,
            forall|j: int| 0 <= j < i ==> #[trigger] keys@[j] == (files@[j].size, 0u64),
        decreases files@.len() - i,
    {
        keys.push((files[i].size, 0));
        i += 1;
    }
    assert(keys@ =~= size_keys(entries_view(files@)));
    pick(files, &keys)
}

fn keys_and_entries(results: &Vec<(FilePath, u64, u64)>) -> (r: (Vec<(u64, u64)>, Vec<FileEntry>))
    ensures
        r.0@ == result_keys(hashed_view(results@)),
        entries_view(r.1@) == result_entries(hashed_view(results@)),
{
    let mut keys: Vec<(u64, u64)> = Vec::new();
    let mut entries: Vec<FileEntry> = Vec::new();
    let mut i: usize = 0;
    while i < results.len()
        invariant
            i <= results@.len(),
            keys@.len() == i,
            entries@.len() == i,
            forall|j: int|
                0 <= j < i ==> #[trigger] keys@[j] == (results@[j].1, results@[j].2),
            forall|j: int|
                0 <= j < i ==> (#[trigger] entries@[j])@ == (EntryView {
                    path: results@[j].0@,
                    written: results@[j].0.written@,
                    size: results@[j].1,
                }),
        decreases results@.len() - i,
    {
        keys.push((results[i].1, results[i].2));
        entries.push(FileEntry { path: results[i].0.clone(), size: results[i].1 });
        i += 1;
    }
    assert(keys@ =~= result_keys(hashed_view(results@)));
    assert(entries_view(entries@) =~= result_entries(hashed_view(results@)));
    (keys, entries)
}

fn pick_same_hashed(results: &Vec<(FilePath, u64, u64)>) -> (r: Vec<FileEntry>)
    ensures
        entries_view(r@) == same_hashed(hashed_view(results@)),
{
    let (keys, entries) = keys_and_entries(results);
    assert(entries_view(entries@).len() == entries@.len());
    pick(&entries, &keys)
}

// ---------------------------------------------------------------------------
// Hashing
// ---------------------------------------------------------------------------

/// Files with their hashes, those left out that could not be hashed.
pub open spec fn hashed(entries: Seq<EntryView>, hashes: Seq<Option<u64>>) -> Seq<HashedView>
    decreases entries.len(),
{
    if entries.len() == 0 {
        seq![]
    } else {
        let rest = hashed(entries.drop_last(), hashes);
        match hashes[entries.len() - 1] {
            Some(hash) => rest.push(
                HashedView {
                    path: entries.last().path,
                    written: entries.last().written,
                    size: entries.last().size,
                    hash,
                },
            ),
            None => rest,
        }
    }
}

/// How many answers are taken in where the next candidate is `idx` of `len`.
pub open spec fn taken(idx: int, len: int, answers: int) -> int {
    if idx + answers <= len {
        answers
    } else if idx <= len {
        len - idx
    } else {
        0
    }
}

/// What is left of the candidates.
pub open spec fn remaining(candidates: Seq<EntryView>, idx: int) -> Seq<EntryView> {
    if idx <= candidates.len() {
        candidates.skip(idx)
    } else {
        seq![]
    }
}

fn record_hashes(
    candidates: &Vec<FileEntry>,
    idx: usize,
    results: &mut Vec<(FilePath, u64, u64)>,
    hashes: &Vec<Option<u64>>,
) -> (r: usize)
    ensures
        r == idx + taken(idx as int, candidates@.len() as int, hashes@.len() as int),
        hashed_view(final(results)@) == hashed_view(old(results)@) + hashed(
            remaining(entries_view(candidates@), idx as int).take(
                taken(idx as int, candidates@.len() as int, hashes@.len() as int),
            ),
            hashes@,
        ),
{
    let ghost views = entries_view(candidates@);
    let ghost rest = remaining(views, idx as int);
    let ghost n = taken(idx as int, candidates@.len() as int, hashes@.len() as int);
    let ghost before = hashed_view(results@);
    let mut k: usize = 0;
    assert(hashed_view(results@) =~= before + hashed(rest.take(0), hashes@));
    while k < hashes.len() && idx < candidates.len() - k
        invariant
            k <= hashes@.len(),
            idx <= candidates@.len() ==> k <= candidates@.len() - idx,
            idx > candidates@.len() ==> k == 0,
            k <= candidates.len(),
            views == entries_view(candidates@),
            rest == remaining(views, idx as int),
            hashed_view(results@) == before + hashed(rest.take(k as int), hashes@),
        decreases hashes@.len() - k,
    {
        let ghost results0 = hashed_view(results@);
        proof {
            assert(rest.take(k + 1).drop_last() =~= rest.take(k as int));
            assert(rest.take(k + 1).last() == views[idx + k]);
        }
        if let Some(hash) = hashes[k] {
            let entry = &candidates[idx + k];
            let ghost h = HashedView {
                path: entry.path@,
                written: entry.path.written@,
                size: entry.size,
                hash,
            };
            results.push((entry.path.clone(), entry.size, hash));
            assert(hashed_view(results@) =~= results0.push(h));
        }
        k += 1;
        assert(hashed_view(results@) =~= before + hashed(rest.take(k as int), hashes@));
    }
    assert(k == n);
    idx + k
}

/// The state once starts of files were hashed, with `None` for each that could not be. After the
/// last candidate the next stage begins.
pub open spec fn heads_recorded(s: StateView, hashes: Seq<Option<u64>>) -> StateView {
    let len = s.head_candidates.len() as int;
    let n = taken(s.head_idx, len, hashes.len() as int);
    let results = s.head_results + hashed(
        remaining(s.head_candidates, s.head_idx).take(n),
        hashes,
    );
    let recorded = StateView { head_results: results, head_idx: s.head_idx + n, ..s };
    if s.head_idx + n >= len {
        StateView {
            phase: ScanPhase::PartialHashing,
            partial_candidates: same_hashed(results),
            ..recorded
        }
    } else {
        recorded
    }
}

/// The state once ends of files were hashed, with `None` for each that could not be. After the
/// last candidate the next stage begins.
pub open spec fn ends_recorded(s: StateView, hashes: Seq<Option<u64>>) -> StateView {
    let len = s.partial_candidates.len() as int;
    let n = taken(s.partial_idx, len, hashes.len() as int);
    let results = s.partial_results + hashed(
        remaining(s.partial_candidates, s.partial_idx).take(n),
        hashes,
    );
    let recorded = StateView { partial_results: results, partial_idx: s.partial_idx + n, ..s };
    if s.partial_idx + n >= len {
        StateView { phase: ScanPhase::FullHashing, ..recorded }
    } else {
        recorded
    }
}

/// The state once all directories were read.
pub open spec fn walk_finished(s: StateView) -> StateView {
    StateView {
        phase: ScanPhase::HeadHashing,
        head_candidates: same_sized(s.files),
        ..s
    }
}

impl ScanState {
    fn finish_walk(&mut self)
        ensures
            final(self)@ == walk_finished(old(self)@),
            final(self).completed_dirs == old(self).completed_dirs,
    {
        self.head_candidates = pick_same_sized(&self.files);
        self.phase = ScanPhase::HeadHashing;
    }

    fn record_heads(&mut self, hashes: &Vec<Option<u64>>)
        ensures
            final(self)@ == heads_recorded(old(self)@, hashes@),
            final(self).completed_dirs == old(self).completed_dirs,
    {
        self.head_idx = record_hashes(
            &self.head_candidates,
            self.head_idx,
            &mut self.head_results,
            hashes,
        );
        if self.head_idx >= self.head_candidates.len() {
            self.partial_candidates = pick_same_hashed(&self.head_results);
            self.phase = ScanPhase::PartialHashing;
        }
    }

    fn record_ends(&mut self, hashes: &Vec<Option<u64>>)
        ensures
            final(self)@ == ends_recorded(old(self)@, hashes@),
            final(self).completed_dirs == old(self).completed_dirs,
    {
        self.partial_idx = record_hashes(
            &self.partial_candidates,
            self.partial_idx,
            &mut self.partial_results,
            hashes,
        );
        if self.partial_idx >= self.partial_candidates.len() {
            self.phase = ScanPhase::FullHashing;
        }
    }
}

// ---------------------------------------------------------------------------
// Final comparison
// ---------------------------------------------------------------------------

/// What was found out of a file at the end: its hash where it could be read, and its dates.
#[derive(Debug, Clone, Copy)]
pub struct FileCheck {
    pub hash: Option<u64>,
    pub created: Option<i128>,
    pub modified: Option<i128>,
}

/// The finding on a file of which nothing could be found out.
pub open spec fn unread() -> FileCheck {
    FileCheck { hash: None, created: None, modified: None }
}

/// A file with what was found out of it.
pub open spec fn info_of(entry: EntryView, check: FileCheck) -> FileView {
    FileView {
        path: entry.path,
        written: entry.written,
        size: entry.size,
        created: check.created,
        modified: check.modified,
    }
}

fn make_file_info(entry: &FileEntry, check: &FileCheck) -> (r: FileInfo)
    ensures
        r@ == info_of(entry@, *check),
{
    FileInfo {
        path: entry.path.clone(),
        size: entry.size,
        created: check.created,
        modified: check.modified,
    }
}

/// Files that share their size and the hash of their ends, in groups of two or more.
pub open spec fn candidate_groups(results: Seq<HashedView>) -> Seq<Seq<EntryView>> {
    classes_of(result_keys(results)).map_values(
        |c: Seq<int>| c.map_values(|i: int| entry_of(results[i])),
    )
}

/// What groups of entries stand for.
pub open spec fn entry_groups_view(groups: Seq<Vec<FileEntry>>) -> Seq<Seq<EntryView>> {
    groups.map_values(|g: Vec<FileEntry>| entries_view(g@))
}

fn collect_candidates(results: &Vec<(FilePath, u64, u64)>) -> (r: Vec<Vec<FileEntry>>)
    ensures
        entry_groups_view(r@) == candidate_groups(hashed_view(results@)),
{
    let ghost rs = hashed_view(results@);
    let (keys, entries) = keys_and_entries(results);
    let found = classes(&keys);
    let ghost cs = classes_of(keys@);
    assert(entries_view(entries@).len() == entries@.len());
    let mut out: Vec<Vec<FileEntry>> = Vec::new();
    let mut g: usize = 0;
    while g < found.len()
        invariant
            g <= found@.len(),
            rs == hashed_view(results@),
            keys@ == result_keys(rs),
            entries_view(entries@) == result_entries(rs),
            entries@.len() == rs.len(),
            cs == classes_of(keys@),
            classes_view(found@) == cs,
            out@.len() == g,
            forall|h: int|
                0 <= h < g ==> entries_view((#[trigger] out@[h])@) == candidate_groups(rs)[h],
        decreases found@.len() - g,
    {
        let class = &found[g];
        assert(cs[g as int] == positions(class@));
        proof {
            lemma_members_in_range(keys@, g as int);
            assert forall|r: int| 0 <= r < class@.len() implies #[trigger] class@[r]
                < rs.len() by {
                assert(cs[g as int][r] == class@[r]);
            }
        }
        let mut group: Vec<FileEntry> = Vec::new();
        let mut k: usize = 0;
        while k < class.len()
            invariant
                k <= class@.len(),
                entries_view(entries@) == result_entries(rs),
                entries@.len() == rs.len(),
                forall|r: int| 0 <= r < class@.len() ==> #[trigger] class@[r] < rs.len(),
                group@.len() == k,
                forall|r: int|
                    0 <= r < k ==> (#[trigger] group@[r])@ == entry_of(rs[class@[r] as int]),
            decreases class@.len() - k,
        {
            let i: usize = class[k];
            assert(entries_view(entries@)[i as int] == entries@[i as int]@);
            group.push(entries[i].clone());
            k += 1;
        }
        assert(entries_view(group@) =~= candidate_groups(rs)[g as int]);
        out.push(group);
        g += 1;
    }
    assert(entry_groups_view(out@) =~= candidate_groups(rs));
    out
}

/// The positions of the files that could be read.
pub open spec fn readable(checks: Seq<FileCheck>) -> Seq<int> {
    upto(checks.len()).filter(|i: int| checks[i].hash is Some)
}

/// What files that could be read are told apart by at the end: their hashes.
pub open spec fn check_keys(checks: Seq<FileCheck>) -> Seq<(u64, u64)> {
    readable(checks).map_values(|i: int| (checks[i].hash->0, 0u64))
}

/// The duplicates in a group of files that share their size and the hash of their ends, with one
/// finding for each. Of files whose ends are all of them, all; of others, those that share their
/// last hash with another, apart for each such hash.
pub open spec fn confirmed(files: Seq<EntryView>, checks: Seq<FileCheck>) -> Seq<Seq<FileView>> {
    if files[0].size <= 2 * PARTIAL_HASH_SIZE {
        seq![Seq::new(files.len(), |i: int| info_of(files[i], checks[i]))]
    } else {
        classes_of(check_keys(checks)).map_values(
            |c: Seq<int>|
                c.map_values(
                    |j: int| info_of(files[readable(checks)[j]], checks[readable(checks)[j]]),
                ),
        )
    }
}

/// Confirms the duplicates in a group of files, with one finding for each.
pub fn confirm(files: &Vec<FileEntry>, checks: &Vec<FileCheck>) -> (r: DuplicateGroups)
    requires
        files@.len() == checks@.len(),
        files@.len() > 0,
    ensures
        groups_view(r@) == confirmed(entries_view(files@), checks@),
{
    let ghost fs = entries_view(files@);
    let ghost cs = checks@;
    let mut out: DuplicateGroups = Vec::new();
    assert(fs[0] == files@[0]@);
    if files[0].size <= 2 * PARTIAL_HASH_SIZE {
        let mut group: Vec<FileInfo> = Vec::new();
        let mut i: usize = 0;
        while i < files.len()
            invariant
                i <= files@.len() == checks@.len(),
                fs == entries_view(files@),
                group@.len() == i,
                forall|j: int|
                    0 <= j < i ==> (#[trigger] group@[j])@ == info_of(fs[j], checks@[j]),
            decreases files@.len() - i,
        {
            group.push(make_file_info(&files[i], &checks[i]));
            i += 1;
        }
        assert(group_view(group@) =~= Seq::new(fs.len(), |i: int| info_of(fs[i], cs[i])));
        out.push(group);
        assert(groups_view(out@) =~= confirmed(fs, cs));
        return out;
    }
    let ghost all = upto(cs.len());
    let ghost p = |i: int| cs[i].hash is Some;
    let mut at: Vec<usize> = Vec::new();
    let mut keys: Vec<(u64, u64)> = Vec::new();
    let mut i: usize = 0;
    proof {
        lemma_filter_ends(all, p);
        assert(positions(at@) =~= all.take(0).filter(p));
    }
    while i < checks.len()
        invariant
            i <= checks@.len(),
            cs == checks@,
            all == upto(cs.len()),
            p == (|i: int| cs[i].hash is Some),
            positions(at@) == all.take(i as int).filter(p),
            keys@.len() == at@.len(),
            forall|j: int|
                0 <= j < at@.len() ==> #[trigger] keys@[j] == (cs[at@[j] as int].hash->0, 0u64),
        decreases checks@.len() - i,
    {
        let ghost at0 = positions(at@);
        proof {
            lemma_take_filter(all, p, i as int);
        }
        if let Some(hash) = checks[i].hash {
            at.push(i);
            keys.push((hash, 0));
            assert(positions(at@) =~= at0.push(i as int));
        }
        i += 1;
    }
    proof {
        lemma_filter_ends(all, p);
        assert(positions(at@) == readable(cs));
        assert(keys@ =~= check_keys(cs)) by {
            assert forall|j: int| 0 <= j < keys@.len() implies keys@[j] == check_keys(cs)[j] by {
                assert(readable(cs)[j] == at@[j]);
            }
        }
        lemma_filter_upto(cs.len(), p);
    }
    let found = classes(&keys);
    let ghost classes_found = classes_of(keys@);
    let mut g: usize = 0;
    while g < found.len()
        invariant
            g <= found@.len(),
            files@.len() == checks@.len(),
            fs == entries_view(files@),
            cs == checks@,
            fs.len() > 0,
            fs[0].size > 2 * PARTIAL_HASH_SIZE,
            keys@ == check_keys(cs),
            positions(at@) == readable(cs),
            forall|j: int| 0 <= j < readable(cs).len() ==> 0 <= #[trigger] readable(cs)[j] < cs.len(),
            classes_found == classes_of(keys@),
            classes_view(found@) == classes_found,
            out@.len() == g,
            forall|h: int|
                0 <= h < g ==> group_view((#[trigger] out@[h])@) == confirmed(fs, cs)[h],
        decreases found@.len() - g,
    {
        let class = &found[g];
        assert(classes_found[g as int] == positions(class@));
        proof {
            lemma_members_in_range(keys@, g as int);
            assert forall|r: int| 0 <= r < class@.len() implies #[trigger] class@[r]
                < at@.len() by {
                assert(classes_found[g as int][r] == class@[r]);
            }
        }
        let mut group: Vec<FileInfo> = Vec::new();
        let mut k: usize = 0;
        while k < class.len()
            invariant
                k <= class@.len(),
                files@.len() == checks@.len(),
                fs == entries_view(files@),
                cs == checks@,
                positions(at@) == readable(cs),
                forall|j: int| 0 <= j < readable(cs).len() ==> 0 <= #[trigger] readable(cs)[j] < cs.len(),
                forall|r: int| 0 <= r < class@.len() ==> #[trigger] class@[r] < at@.len(),
                group@.len() == k,
                forall|r: int|
                    0 <= r < k ==> (#[trigger] group@[r])@ == info_of(
                        fs[readable(cs)[class@[r] as int]],
                        cs[readable(cs)[class@[r] as int]],
                    ),
            decreases class@.len() - k,
        {
            let j: usize = class[k];
            assert(readable(cs)[j as int] == at@[j as int]);
            let i: usize = at[j];
            group.push(make_file_info(&files[i], &checks[i]));
            k += 1;
        }
        assert(group_view(group@) =~= confirmed(fs, cs)[g as int]);
        out.push(group);
        g += 1;
    }
    assert(groups_view(out@) =~= confirmed(fs, cs));
    out
}

/// The finding on file `i` of group `g`, where there is one.
pub open spec fn check_at(answers: Seq<Seq<FileCheck>>, g: int, i: int) -> FileCheck {
    if 0 <= g < answers.len() && 0 <= i < answers[g].len() {
        answers[g][i]
    } else {
        unread()
    }
}

/// The findings on the `n` files of group `g`.
pub open spec fn checks_of(answers: Seq<Seq<FileCheck>>, g: int, n: nat) -> Seq<FileCheck> {
    Seq::new(n, |i: int| check_at(answers, g, i))
}

/// The duplicates in the first `k` groups.
pub open spec fn confirmed_upto(
    candidates: Seq<Seq<EntryView>>,
    answers: Seq<Seq<FileCheck>>,
    k: int,
) -> Seq<Seq<FileView>>
    decreases k,
{
    if k <= 0 {
        seq![]
    } else {
        confirmed_upto(candidates, answers, k - 1) + confirmed(
            candidates[k - 1],
            checks_of(answers, k - 1, candidates[k - 1].len()),
        )
    }
}

/// What findings stand for.
pub open spec fn answers_view(answers: Seq<Vec<FileCheck>>) -> Seq<Seq<FileCheck>> {
    answers.map_values(|a: Vec<FileCheck>| a@)
}

fn confirm_all(candidates: &Vec<Vec<FileEntry>>, answers: &Vec<Vec<FileCheck>>) -> (r:
    DuplicateGroups)
    requires
        forall|g: int| 0 <= g < candidates@.len() ==> (#[trigger] candidates@[g])@.len() > 0,
    ensures
        groups_view(r@) == confirmed_upto(
            entry_groups_view(candidates@),
            answers_view(answers@),
            candidates@.len() as int,
        ),
{
    let ghost cands = entry_groups_view(candidates@);
    let ghost ans = answers_view(answers@);
    let mut out: DuplicateGroups = Vec::new();
    let mut g: usize = 0;
    assert(groups_view(out@) =~= confirmed_upto(cands, ans, 0));
    while g < candidates.len()
        invariant
            g <= candidates@.len(),
            forall|g: int| 0 <= g < candidates@.len() ==> (#[trigger] candidates@[g])@.len() > 0,
            cands == entry_groups_view(candidates@),
            ans == answers_view(answers@),
            groups_view(out@) == confirmed_upto(cands, ans, g as int),
        decreases candidates@.len() - g,
    {
        let files = &candidates[g];
        let mut checks: Vec<FileCheck> = Vec::new();
        let mut i: usize = 0;
        while i < files.len()
            invariant
                i <= files@.len(),
                ans == answers_view(answers@),
                checks@.len() == i,
                forall|j: int|
                    0 <= j < i ==> #[trigger] checks@[j] == check_at(ans, g as int, j),
            decreases files@.len() - i,
        {
            if g < answers.len() && i < answers[g].len() {
                assert(ans[g as int] == answers@[g as int]@);
                checks.push(answers[g][i]);
            } else {
                checks.push(FileCheck { hash: None, created: None, modified: None });
            }
            i += 1;
        }
        assert(cands[g as int] == entries_view(files@));
        assert(checks@ =~= checks_of(ans, g as int, files@.len()));
        let mut more = confirm(files, &checks);
        let ghost out0 = groups_view(out@);
        let ghost more0 = groups_view(more@);
        out.append(&mut more);
        assert(groups_view(out@) =~= out0 + more0);
        g += 1;
    }
    out
}

// ---------------------------------------------------------------------------
// The scan step by step
// ---------------------------------------------------------------------------

/// Files to compare at last, and what is read of each.
#[derive(Debug)]
pub struct VerifyGroup {
    pub plan: VerifyPlan,
    pub files: Vec<FileEntry>,
}

/// What a `VerifyGroup` stands for.
pub struct VerifyView {
    pub plan: PlanView,
    pub files: Seq<EntryView>,
}

impl View for VerifyGroup {
    type V = VerifyView;

    open spec fn view(&self) -> VerifyView {
        VerifyView { plan: self.plan@, files: entries_view(self.files@) }
    }
}

/// What the scan learns.
#[derive(Debug)]
pub enum ScanEvent {
    /// Nothing new.
    Nothing,
    /// What is in a directory, `None` where it could not be read.
    DirRead { dir: FilePath, items: Option<Vec<DirItem>> },
    /// All directories were read.
    WalkDone,
    /// The hashes of the starts of the next files.
    Heads(Vec<Option<u64>>),
    /// The hashes of the ends of the next files.
    Ends(Vec<Option<u64>>),
    /// The findings on all files to compare at last.
    Verified(Vec<Vec<FileCheck>>),
}

/// What an event stands for.
pub enum EventView {
    Nothing,
    DirRead { dir: Seq<Step>, items: Option<Seq<DirItem>> },
    WalkDone,
    Heads(Seq<Option<u64>>),
    Ends(Seq<Option<u64>>),
    Verified(Seq<Seq<FileCheck>>),
}

impl View for ScanEvent {
    type V = EventView;

    open spec fn view(&self) -> EventView {
        match self {
            ScanEvent::Nothing => EventView::Nothing,
            ScanEvent::DirRead { dir, items } => EventView::DirRead {
                dir: dir@,
                items: items_view(*items),
            },
            ScanEvent::WalkDone => EventView::WalkDone,
            ScanEvent::Heads(h) => EventView::Heads(h@),
            ScanEvent::Ends(h) => EventView::Ends(h@),
            ScanEvent::Verified(a) => EventView::Verified(answers_view(a@)),
        }
    }
}

/// What the scan needs next.
#[derive(Debug)]
pub enum ScanAction {
    /// Read the directories.
    Walk,
    /// Hash the start of each of these files.
    HashHeads(Vec<FileEntry>),
    /// Hash the two ends of each of these files.
    HashEnds(Vec<FileEntry>),
    /// Compare these files at last.
    Verify(Vec<VerifyGroup>),
    /// Nothing: these are the duplicates.
    Finished(DuplicateGroups),
}

/// What an action stands for.
pub enum ActionView {
    Walk,
    HashHeads(Seq<EntryView>),
    HashEnds(Seq<EntryView>),
    Verify(Seq<VerifyView>),
    Finished(Seq<Seq<FileView>>),
}

/// What groups to compare at last stand for.
pub open spec fn verify_views(groups: Seq<VerifyGroup>) -> Seq<VerifyView> {
    groups.map_values(|g: VerifyGroup| g@)
}

impl View for ScanAction {
    type V = ActionView;

    open spec fn view(&self) -> ActionView {
        match self {
            ScanAction::Walk => ActionView::Walk,
            ScanAction::HashHeads(v) => ActionView::HashHeads(entries_view(v@)),
            ScanAction::HashEnds(v) => ActionView::HashEnds(entries_view(v@)),
            ScanAction::Verify(v) => ActionView::Verify(verify_views(v@)),
            ScanAction::Finished(g) => ActionView::Finished(groups_view(g@)),
        }
    }
}

/// The state after an event. An event that belongs to another stage changes nothing.
pub open spec fn state_after(s: StateView, event: EventView) -> StateView {
    match event {
        EventView::Nothing => s,
        EventView::DirRead { dir, items } => if s.phase == ScanPhase::Walking {
            dir_recorded(s, dir, items)
        } else {
            s
        },
        EventView::WalkDone => if s.phase == ScanPhase::Walking {
            walk_finished(s)
        } else {
            s
        },
        EventView::Heads(hashes) => if s.phase == ScanPhase::HeadHashing {
            heads_recorded(s, hashes)
        } else {
            s
        },
        EventView::Ends(hashes) => if s.phase == ScanPhase::PartialHashing {
            ends_recorded(s, hashes)
        } else {
            s
        },
        EventView::Verified(_) => if s.phase == ScanPhase::FullHashing || s.phase
            == ScanPhase::Done {
            StateView { phase: ScanPhase::Done, ..s }
        } else {
            s
        },
    }
}

/// The groups to compare at last, and what is read of each.
pub open spec fn verify_list(results: Seq<HashedView>, fast: Option<u32>) -> Seq<VerifyView> {
    candidate_groups(results).map_values(
        |g: Seq<EntryView>| VerifyView { plan: plan_of(g[0].size, fast), files: g },
    )
}

/// What a scan in that state needs.
pub open spec fn action_in(s: StateView, fast: Option<u32>) -> ActionView {
    match s.phase {
        ScanPhase::Walking => ActionView::Walk,
        ScanPhase::HeadHashing => ActionView::HashHeads(remaining(s.head_candidates, s.head_idx)),
        ScanPhase::PartialHashing => ActionView::HashEnds(
            remaining(s.partial_candidates, s.partial_idx),
        ),
        _ => ActionView::Verify(verify_list(s.partial_results, fast)),
    }
}

/// The duplicates that were found.
pub open spec fn found_groups(results: Seq<HashedView>, answers: Seq<Seq<FileCheck>>) -> Seq<
    Seq<FileView>,
> {
    confirmed_upto(
        candidate_groups(results),
        answers,
        candidate_groups(results).len() as int,
    )
}

/// What a scan in that state needs after an event: what its next state needs, or nothing once
/// the last comparison is made.
pub open spec fn action_after(s: StateView, event: EventView, fast: Option<u32>) -> ActionView {
    match event {
        EventView::Verified(answers) => if s.phase == ScanPhase::FullHashing || s.phase
            == ScanPhase::Done {
            ActionView::Finished(found_groups(s.partial_results, answers))
        } else {
            action_in(s, fast)
        },
        _ => action_in(state_after(s, event), fast),
    }
}

fn copy_remaining(candidates: &Vec<FileEntry>, idx: usize) -> (r: Vec<FileEntry>)
    ensures
        entries_view(r@) == remaining(entries_view(candidates@), idx as int),
{
    let ghost views = entries_view(candidates@);
    let mut out: Vec<FileEntry> = Vec::new();
    let mut i: usize = idx;
    while i < candidates.len()
        invariant
            idx <= i,
            idx <= candidates@.len() ==> i <= candidates@.len(),
            idx > candidates@.len() ==> i == idx,
            views == entries_view(candidates@),
            out@.len() == i - idx,
            forall|j: int| 0 <= j < i - idx ==> (#[trigger] out@[j])@ == views[idx + j],
        decreases candidates@.len() - i,
    {
        out.push(candidates[i].clone());
        i += 1;
    }
    assert(entries_view(out@) =~= remaining(views, idx as int));
    out
}

proof fn lemma_candidates_not_empty(results: Seq<HashedView>)
    ensures
        forall|g: int|
            0 <= g < candidate_groups(results).len() ==> (#[trigger] candidate_groups(
                results,
            )[g]).len() >= 2,
{
    assert forall|g: int| 0 <= g < candidate_groups(results).len() implies (
    #[trigger] candidate_groups(results)[g]).len() >= 2 by {
        classes_share_a_key(result_keys(results), g);
    }
}

impl ScanState {
    fn candidates(&self) -> (r: Vec<Vec<FileEntry>>)
        ensures
            entry_groups_view(r@) == candidate_groups(self@.partial_results),
            forall|g: int| 0 <= g < r@.len() ==> (#[trigger] r@[g])@.len() > 0,
    {
        let r = collect_candidates(&self.partial_results);
        proof {
            lemma_candidates_not_empty(self@.partial_results);
            assert forall|g: int| 0 <= g < r@.len() implies (#[trigger] r@[g])@.len() > 0 by {
                assert(entry_groups_view(r@)[g] == entries_view(r@[g]@));
            }
        }
        r
    }

    fn groups_to_verify(&self, fast: Option<u32>) -> (r: Vec<VerifyGroup>)
        ensures
            verify_views(r@) == verify_list(self@.partial_results, fast),
    {
        let ghost cands = candidate_groups(self@.partial_results);
        let mut groups = self.candidates();
        let ghost groups0 = groups@;
        let mut out: Vec<VerifyGroup> = Vec::new();
        let mut g: usize = 0;
        while g < groups.len()
            invariant
                g <= groups@.len() == groups0.len(),
                entry_groups_view(groups0) == cands,
                forall|h: int| 0 <= h < groups0.len() ==> (#[trigger] groups0[h])@.len() > 0,
                forall|h: int| g <= h < groups0.len() ==> #[trigger] groups@[h] == groups0[h],
                out@.len() == g,
                forall|h: int|
                    0 <= h < g ==> (#[trigger] out@[h])@ == (VerifyView {
                        plan: plan_of(cands[h][0].size, fast),
                        files: cands[h],
                    }),
            decreases groups@.len() - g,
        {
            assert(groups@[g as int] == groups0[g as int]);
            assert(cands[g as int] == entries_view(groups0[g as int]@));
            let plan = verify_plan(groups[g][0].size, fast);
            let mut files: Vec<FileEntry> = Vec::new();
            std::mem::swap(&mut groups[g], &mut files);
            out.push(VerifyGroup { plan, files });
            g += 1;
        }
        assert(verify_views(out@) =~= verify_list(self@.partial_results, fast));
        out
    }

    fn needed(&self, fast: Option<u32>) -> (r: ScanAction)
        ensures
            r@ == action_in(self@, fast),
    {
        match self.phase {
            ScanPhase::Walking => ScanAction::Walk,
            ScanPhase::HeadHashing => ScanAction::HashHeads(
                copy_remaining(&self.head_candidates, self.head_idx),
            ),
            ScanPhase::PartialHashing => ScanAction::HashEnds(
                copy_remaining(&self.partial_candidates, self.partial_idx),
            ),
            ScanPhase::FullHashing => ScanAction::Verify(self.groups_to_verify(fast)),
            ScanPhase::Done => ScanAction::Verify(self.groups_to_verify(fast)),
        }
    }
}

/// Goes on with a scan: takes in what was learned and says what is needed next. The scan walks
/// the directories, hashes the starts of the files that share their size, then the ends of those
/// that share that hash too, and compares at last those that share even this one.
pub fn scan_duplicates(state: &mut ScanState, event: ScanEvent, fast: Option<u32>) -> (r:
    ScanAction)
    requires
        old(state).completed_dirs.wf(),
    ensures
        final(state).completed_dirs.wf(),
        final(state)@ == state_after(old(state)@, event@),
        r@ == action_after(old(state)@, event@, fast),
{
    match event {
        ScanEvent::Nothing => {},
        ScanEvent::DirRead { dir, items } => {
            if state.phase == ScanPhase::Walking {
                state.record_dir(dir, items);
            }
        },
        ScanEvent::WalkDone => {
            if state.phase == ScanPhase::Walking {
                state.finish_walk();
            }
        },
        ScanEvent::Heads(hashes) => {
            if state.phase == ScanPhase::HeadHashing {
                state.record_heads(&hashes);
            }
        },
        ScanEvent::Ends(hashes) => {
            if state.phase == ScanPhase::PartialHashing {
                state.record_ends(&hashes);
            }
        },
        ScanEvent::Verified(answers) => {
            if state.phase == ScanPhase::FullHashing || state.phase == ScanPhase::Done {
                let candidates = state.candidates();
                state.phase = ScanPhase::Done;
                return ScanAction::Finished(confirm_all(&candidates, &answers));
            }
        },
    }
    state.needed(fast)
}

// ---------------------------------------------------------------------------
// Progress
// ---------------------------------------------------------------------------

/// Progress counters of a scan.
#[derive(Debug, Clone, Copy, PartialEq, Eq, Structural)]
pub struct ScanProgress {
    pub files_found: usize,
    pub dirs_done: usize,
    pub dirs_total: usize,
    /// 0 = walk, 1 = head hash, 2 = tail hash, 3 = verify, 4 = done
    pub stage: usize,
    pub hashed: usize,
    pub to_hash: usize,
    pub dupes_found: usize,
    pub groups_found: usize,
}

/// The number of a phase.
pub open spec fn stage_of(phase: ScanPhase) -> usize {
    match phase {
        ScanPhase::Walking => 0,
        ScanPhase::HeadHashing => 1,
        ScanPhase::PartialHashing => 2,
        ScanPhase::FullHashing => 3,
        ScanPhase::Done => 4,
    }
}

/// The files that have to be read again for the last comparison: those that share their size and
/// the hash of their ends, and are longer than their ends.
pub open spec fn to_verify(results: Seq<HashedView>) -> Seq<EntryView> {
    same_hashed(results).filter(|e: EntryView| e.size > 2 * PARTIAL_HASH_SIZE)
}

/// The counters of a scan in that state, with so many directories to read and so many groups and
/// files confirmed as duplicates.
pub open spec fn progress_in(
    s: StateView,
    dirs_total: usize,
    groups_found: usize,
    dupes_found: usize,
) -> ScanProgress {
    ScanProgress {
        files_found: s.files.len() as usize,
        dirs_done: s.completed_dirs.len() as usize,
        dirs_total,
        stage: stage_of(s.phase),
        hashed: match s.phase {
            ScanPhase::HeadHashing => s.head_idx as usize,
            ScanPhase::PartialHashing => s.partial_idx as usize,
            _ => 0,
        },
        to_hash: match s.phase {
            ScanPhase::Walking => 0,
            ScanPhase::HeadHashing => s.head_candidates.len() as usize,
            ScanPhase::PartialHashing => s.partial_candidates.len() as usize,
            _ => to_verify(s.partial_results).len() as usize,
        },
        dupes_found,
        groups_found,
    }
}

fn count_to_verify(results: &Vec<(FilePath, u64, u64)>) -> (r: usize)
    ensures
        r == to_verify(hashed_view(results@)).len(),
{
    let again = pick_same_hashed(results);
    let ghost views = entries_view(again@);
    let ghost p = |e: EntryView| e.size > 2 * PARTIAL_HASH_SIZE;
    let mut n: usize = 0;
    let mut i: usize = 0;
    proof {
        lemma_filter_ends(views, p);
    }
    while i < again.len()
        invariant
            i <= again@.len(),
            n <= i,
            views == entries_view(again@),
            p == (|e: EntryView| e.size > 2 * PARTIAL_HASH_SIZE),
            n == views.take(i as int).filter(p).len(),
        decreases again@.len() - i,
    {
        proof {
            lemma_take_filter(views, p, i as int);
        }
        if again[i].size > 2 * PARTIAL_HASH_SIZE {
            n += 1;
        }
        i += 1;
    }
    proof {
        lemma_filter_ends(views, p);
    }
    n
}

impl ScanProgress {
    /// The counters of a scan that has not begun.
    pub fn new() -> (r: ScanProgress)
        ensures
            r == (ScanProgress {
                files_found: 0,
                dirs_done: 0,
                dirs_total: 0,
                stage: 0,
                hashed: 0,
                to_hash: 0,
                dupes_found: 0,
                groups_found: 0,
            }),
    {
        ScanProgress {
            files_found: 0,
            dirs_done: 0,
            dirs_total: 0,
            stage: 0,
            hashed: 0,
            to_hash: 0,
            dupes_found: 0,
            groups_found: 0,
        }
    }

    /// The counters of a scan, where so many directories are to be read, and so many groups and
    /// files are confirmed as duplicates so far.
    pub fn of(
        state: &ScanState,
        dirs_total: usize,
        groups_found: usize,
        dupes_found: usize,
    ) -> (r: ScanProgress)
        requires
            state.completed_dirs.wf(),
        ensures
            r == progress_in(state@, dirs_total, groups_found, dupes_found),
    {
        let mut r = ScanProgress::new();
        r.files_found = state.files.len();
        r.dirs_done = state.completed_dirs.len();
        r.dirs_total = dirs_total;
        r.groups_found = groups_found;
        r.dupes_found = dupes_found;
        match state.phase {
            ScanPhase::Walking => {},
            ScanPhase::HeadHashing => {
                r.stage = 1;
                r.hashed = state.head_idx;
                r.to_hash = state.head_candidates.len();
            },
            ScanPhase::PartialHashing => {
                r.stage = 2;
                r.hashed = state.partial_idx;
                r.to_hash = state.partial_candidates.len();
            },
            ScanPhase::FullHashing => {
                r.stage = 3;
                r.to_hash = count_to_verify(&state.partial_results);
            },
            ScanPhase::Done => {
                r.stage = 4;
                r.to_hash = count_to_verify(&state.partial_results);
            },
        }
        r
    }
}

// ---------------------------------------------------------------------------
// Storage
// ---------------------------------------------------------------------------

impl ScanState {
    /// Where the state of a scan of `root` is stored, where there is a home directory.
    pub fn state_path(home: &Option<FilePath>, root: &FilePath) -> (r: Option<Place>)
        ensures
            match (*home, r) {
                (Some(h), Some(p)) => p.dir.full() == store_dir(h.full()) && p.file.full()
                    == store_file(h.full(), root.full(), ".scan"@),
                (None, None) => true,
                _ => false,
            },
    {
        match home {
            Some(h) => Some(place_of(h, root, ".scan")),
            None => None,
        }
    }

    /// Where this state is to be stored: the place for its root.
    pub fn save(&self, home: &Option<FilePath>) -> (r: Option<Place>)
        ensures
            match (*home, r) {
                (Some(h), Some(p)) => p.dir.full() == store_dir(h.full()) && p.file.full()
                    == store_file(h.full(), self@.root, ".scan"@),
                (None, None) => true,
                _ => false,
            },
    {
        ScanState::state_path(home, &self.root)
    }
}

} // verus!
