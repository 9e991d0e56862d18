//! Results that are kept from one run to the next.
use vstd::prelude::*;

use crate::grouping::upto;
use crate::groups::none_empty;
use crate::location::{place_of, store_dir, store_file, Place};
use crate::path::{FilePath, PathView};
use crate::path_set::full_paths_view;
use crate::record::{group_view, groups_view, DuplicateGroups, FileInfo, FileView};
use crate::sequence::{lemma_filter_ends, lemma_take_filter};

verus! {

/// A group as it is stored.
#[derive(Debug)]
pub struct CachedGroup {
    pub size: u64,
    pub paths: Vec<FilePath>,
}

/// The results for a root as they are stored.
#[derive(Debug)]
pub struct CacheEntry {
    pub root: FilePath,
    pub groups: Vec<CachedGroup>,
}

/// What a stored group stands for.
pub struct CachedView {
    pub size: u64,
    pub paths: Seq<PathView>,
}

impl View for CachedGroup {
    type V = CachedView;

    open spec fn view(&self) -> CachedView {
        CachedView { size: self.size, paths: full_paths_view(self.paths@) }
    }
}

/// What stored results stand for.
pub struct CacheView {
    pub root: PathView,
    pub groups: Seq<CachedView>,
}

impl View for CacheEntry {
    type V = CacheView;

    open spec fn view(&self) -> CacheView {
        CacheView {
            root: self.root.full(),
            groups: self.groups@.map_values(|g: CachedGroup| g@),
        }
    }
}

/// A group as it is stored: the size of its first file, and the paths of all.
pub open spec fn cached_group(group: Seq<FileView>) -> CachedView {
    CachedView { size: group[0].size, paths: group.map_values(|f: FileView| f.full_path()) }
}

/// The results for a root as they are stored.
pub open spec fn cached(root: PathView, groups: Seq<Seq<FileView>>) -> CacheView {
    CacheView { root, groups: groups.map_values(|g: Seq<FileView>| cached_group(g)) }
}

/// Where the results for a root are stored, where there is a home directory.
pub fn cache_path_for(home: &Option<FilePath>, root: &FilePath) -> (r: Option<Place>)
    ensures
        match (*home, r) {
            (Some(h), Some(p)) => p.dir.full() == store_dir(h.full()) && p.file.full()
                == store_file(h.full(), root.full(), ".bin"@),
            (None, None) => true,
            _ => false,
        },
{
    match home {
        Some(h) => Some(place_of(h, root, ".bin")),
        None => None,
    }
}

fn cache_group(group: &Vec<FileInfo>) -> (r: CachedGroup)
    requires
        group@.len() > 0,
    ensures
        r@ == cached_group(group_view(group@)),
{
    let mut paths: Vec<FilePath> = Vec::new();
    let mut i: usize = 0;
    while i < group.len()
        invariant
            i <= group@.len(),
            paths@.len() == i,
            forall|j: int| 0 <= j < i ==> (#[trigger] paths@[j]).full() == group@[j].path.full(),
        decreases group@.len() - i,
    {
        paths.push(group[i].path.clone());
        i += 1;
    }
    let r = CachedGroup { size: group[0].size, paths };
    assert(r@.paths =~= cached_group(group_view(group@)).paths);
    r
}

/// What is to be stored for a root.
pub fn save(root: &FilePath, groups: &DuplicateGroups) -> (r: CacheEntry)
    requires
        none_empty(groups_view(groups@)),
    ensures
        r@ == cached(root.full(), groups_view(groups@)),
{
    let ghost gs = groups_view(groups@);
    let mut out: Vec<CachedGroup> = Vec::new();
    let mut i: usize = 0;
    while i < groups.len()
        invariant
            i <= groups@.len(),
            gs == groups_view(groups@),
            none_empty(gs),
            out@.len() == i,
            forall|j: int| 0 <= j < i ==> (#[trigger] out@[j])@ == cached_group(gs[j]),
        decreases groups@.len() - i,
    {
        assert(gs[i as int] == group_view(groups@[i as int]@));
        out.push(cache_group(&groups[i]));
        i += 1;
    }
    let r = CacheEntry { root: root.clone(), groups: out };
    assert(r@.groups =~= cached(root.full(), gs).groups);
    r
}

// ---------------------------------------------------------------------------
// Loading
// ---------------------------------------------------------------------------

/// What was found out of a path: whether there is something, and its dates.
#[derive(Debug, Clone, Copy)]
pub struct FileProbe {
    pub exists: bool,
    pub created: Option<i128>,
    pub modified: Option<i128>,
}

impl FileProbe {
    /// What counts of a file that is not looked at: it is taken to exist, and its dates are not
    /// known.
    pub fn skipped() -> (r: FileProbe)
        ensures
            r == (FileProbe { exists: true, created: None, modified: None }),
    {
        FileProbe { exists: true, created: None, modified: None }
    }
}

/// What was found out of path `i` of group `g`. A path without a finding counts as gone.
pub open spec fn probe_at(probes: Seq<Seq<FileProbe>>, g: int, i: int) -> FileProbe {
    if 0 <= g < probes.len() && 0 <= i < probes[g].len() {
        probes[g][i]
    } else {
        FileProbe { exists: false, created: None, modified: None }
    }
}

/// A stored file with its dates.
pub open spec fn restored_file(group: CachedView, i: int, probe: FileProbe) -> FileView {
    FileView {
        path: group.paths[i].steps,
        written: group.paths[i].written,
        size: group.size,
        created: probe.created,
        modified: probe.modified,
    }
}

/// The files of stored group `g` that still exist.
pub open spec fn restored_group(group: CachedView, probes: Seq<Seq<FileProbe>>, g: int) -> Seq<
    FileView,
> {
    upto(group.paths.len()).filter(|i: int| probe_at(probes, g, i).exists).map_values(
        |i: int| restored_file(group, i, probe_at(probes, g, i)),
    )
}

/// The stored groups with the files that still exist.
pub open spec fn restored_all(groups: Seq<CachedView>, probes: Seq<Seq<FileProbe>>) -> Seq<
    Seq<FileView>,
> {
    Seq::new(groups.len(), |g: int| restored_group(groups[g], probes, g))
}

/// Groups that hold duplicates.
pub open spec fn has_several() -> spec_fn(Seq<FileView>) -> bool {
    |g: Seq<FileView>| g.len() > 1
}

/// The stored groups of which two files or more still exist.
pub open spec fn restored(groups: Seq<CachedView>, probes: Seq<Seq<FileProbe>>) -> Seq<
    Seq<FileView>,
> {
    restored_all(groups, probes).filter(has_several())
}

/// What findings on paths stand for.
pub open spec fn probes_view(probes: Seq<Vec<FileProbe>>) -> Seq<Seq<FileProbe>> {
    probes.map_values(|p: Vec<FileProbe>| p@)
}

fn restore_group(group: &CachedGroup, probes: &Vec<Vec<FileProbe>>, g: usize) -> (r: Vec<FileInfo>)
    ensures
        group_view(r@) == restored_group(group@, probes_view(probes@), g as int),
{
    let ghost ps = probes_view(probes@);
    let ghost view = group@;
    let ghost all = upto(view.paths.len());
    let ghost p = |i: int| probe_at(ps, g as int, i).exists;
    let ghost f = |i: int| restored_file(view, i, probe_at(ps, g as int, i));
    let mut out: Vec<FileInfo> = Vec::new();
    let mut i: usize = 0;
    proof {
        lemma_filter_ends(all, p);
        assert(group_view(out@) =~= all.take(0).filter(p).map_values(f));
    }
    while i < group.paths.len()
        invariant
            i <= group.paths@.len(),
            ps == probes_view(probes@),
            view == group@,
            all == upto(view.paths.len()),
            p == (|i: int| probe_at(ps, g as int, i).exists),
            f == (|i: int| restored_file(view, i, probe_at(ps, g as int, i))),
            group_view(out@) == all.take(i as int).filter(p).map_values(f),
        decreases group.paths@.len() - i,
    {
        let ghost out0 = group_view(out@);
        proof {
            lemma_take_filter(all, p, i as int);
        }
        if g < probes.len() && i < probes[g].len() {
            assert(ps[g as int] == probes@[g as int]@);
            let probe: FileProbe = probes[g][i];
            if probe.exists {
                let info = FileInfo {
                    path: group.paths[i].clone(),
                    size: group.size,
                    created: probe.created,
                    modified: probe.modified,
                };
                let ghost v = info@;
                out.push(info);
                assert(v == f(i as int));
                assert(group_view(out@) =~= out0.push(v));
            }
        }
        i += 1;
        assert(group_view(out@) =~= all.take(i as int).filter(p).map_values(f));
    }
    proof {
        lemma_filter_ends(all, p);
    }
    out
}

/// The stored results for a root: of what was decoded, where it is that of the root, the groups of
/// which two files or more still exist.
pub fn load(decoded: &Option<CacheEntry>, root: &FilePath, probes: &Vec<Vec<FileProbe>>) -> (r:
    Option<DuplicateGroups>)
    ensures
        match *decoded {
            Some(entry) => if entry@.root.steps == root@ {
                r is Some && groups_view(r->0@) == restored(entry@.groups, probes_view(probes@))
            } else {
                r is None
            },
            None => r is None,
        },
{
    let entry = match decoded {
        Some(e) => e,
        None => {
            return None;
        },
    };
    if !entry.root.equals(root) {
        return None;
    }
    let ghost ps = probes_view(probes@);
    let ghost views = entry@.groups;
    let ghost all = restored_all(views, ps);
    let ghost p = has_several();
    let mut out: DuplicateGroups = Vec::new();
    let mut g: usize = 0;
    proof {
        lemma_filter_ends(all, p);
        assert(groups_view(out@) =~= all.take(0).filter(p));
    }
    while g < entry.groups.len()
        invariant
            g <= entry.groups@.len(),
            ps == probes_view(probes@),
            views == entry@.groups,
            all == restored_all(views, ps),
            p == has_several(),
            groups_view(out@) == all.take(g as int).filter(p),
        decreases entry.groups@.len() - g,
    {
        let ghost out0 = groups_view(out@);
        proof {
            lemma_take_filter(all, p, g as int);
            assert(views[g as int] == entry.groups@[g as int]@);
        }
        let group = restore_group(&entry.groups[g], probes, g);
        assert(group_view(group@) == all[g as int]);
        assert(group@.len() == all[g as int].len());
        if group.len() > 1 {
            out.push(group);
            assert(groups_view(out@) =~= out0.push(all[g as int]));
        }
        g += 1;
    }
    proof {
        lemma_filter_ends(all, p);
    }
    Some(out)
}

// ---------------------------------------------------------------------------
// What loading gives back of what was saved
// ---------------------------------------------------------------------------

/// Groups of duplicates: two files or more, all of the same size.
pub open spec fn are_duplicates(groups: Seq<Seq<FileView>>) -> bool {
    forall|g: int|
        0 <= g < groups.len() ==> (#[trigger] groups[g]).len() > 1 && forall|i: int|
            0 <= i < groups[g].len() ==> (#[trigger] groups[g][i]).size == groups[g][0].size
}

/// All files of the groups exist.
pub open spec fn all_exist(groups: Seq<Seq<FileView>>, probes: Seq<Seq<FileProbe>>) -> bool {
    forall|g: int, i: int|
        0 <= g < groups.len() && 0 <= i < groups[g].len() ==> (#[trigger] probe_at(
            probes,
            g,
            i,
        )).exists
}

/// The groups with the dates that their files have by now.
pub open spec fn redated(groups: Seq<Seq<FileView>>, probes: Seq<Seq<FileProbe>>) -> Seq<
    Seq<FileView>,
> {
    Seq::new(
        groups.len(),
        |g: int|
            Seq::new(
                groups[g].len(),
                |i: int|
                    FileView {
                        path: groups[g][i].path,
                        written: groups[g][i].written,
                        size: groups[g][i].size,
                        created: probe_at(probes, g, i).created,
                        modified: probe_at(probes, g, i).modified,
                    },
            ),
    )
}

pub proof fn lemma_filter_all<T>(s: Seq<T>, p: spec_fn(T) -> bool)
    requires
        forall|i: int| 0 <= i < s.len() ==> p(#[trigger] s[i]),
    ensures
        s.filter(p) == s,
    decreases s.len(),
{
    reveal(Seq::filter);
    if s.len() > 0 {
        assert forall|i: int| 0 <= i < s.drop_last().len() implies p(
            #[trigger] s.drop_last()[i],
        ) by {
            assert(s.drop_last()[i] == s[i]);
        }
        lemma_filter_all(s.drop_last(), p);
        assert(p(s[s.len() - 1]));
        assert(s.filter(p) =~= s);
    }
}

/// Loading gives back what was saved, where all files still exist: the same paths and sizes in
/// the same groups and the same order, with the dates of the day.
pub proof fn load_restores_what_was_saved(
    root: PathView,
    groups: Seq<Seq<FileView>>,
    probes: Seq<Seq<FileProbe>>,
)
    requires
        are_duplicates(groups),
        all_exist(groups, probes),
    ensures
        cached(root, groups).root == root,
        restored(cached(root, groups).groups, probes) == redated(groups, probes),
{
    let views = cached(root, groups).groups;
    let all = restored_all(views, probes);
    let now = redated(groups, probes);
    assert forall|g: int| 0 <= g < groups.len() implies #[trigger] all[g] == now[g] by {
        let view = views[g];
        let p = |i: int| probe_at(probes, g, i).exists;
        assert(view == cached_group(groups[g]));
        lemma_filter_all(upto(view.paths.len()), p);
        assert forall|i: int| 0 <= i < groups[g].len() implies #[trigger] all[g][i] == now[g][i] by {
            assert(upto(view.paths.len())[i] == i);
            assert(groups[g][i].size == groups[g][0].size);
        }
        assert(all[g] =~= now[g]);
    }
    assert(all =~= now);
    lemma_filter_all(all, has_several());
}

/// Whatever still exists, each loaded group holds two files or more.
pub proof fn loaded_groups_have_several(
    groups: Seq<CachedView>,
    probes: Seq<Seq<FileProbe>>,
    g: int,
)
    requires
        0 <= g < restored(groups, probes).len(),
    ensures
        restored(groups, probes)[g].len() > 1,
{
    restored_all(groups, probes).lemma_filter_pred(has_several(), g);
}

} // verus!
