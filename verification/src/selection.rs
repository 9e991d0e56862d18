//! Selecting files for deletion, and expanding directories.
use vstd::prelude::*;

use crate::app::{
    chosen_file, copies, copies_of, current_node, current_rows, right_index, target, tree_inv, App,
    AppView,
};
use crate::path::{path_parent, FilePath, PathView, Step};
use crate::path_set::{flipped, full_paths_view, with_paths, PathSet};
use crate::places::{setting_all_keeps_places, toggling_keeps_places};
use crate::record::{group_view, FileInfo, FileView};
use crate::sequence::{lemma_filter_ends, lemma_take_filter};
use crate::tree::{all_set, numbered, toggled, NodeView, TreeNode};
use crate::tree_laws::{
    childless, labelled, setting_all_keeps, setting_all_keeps_totals, toggling_keeps,
    toggling_keeps_totals, with_expanded,
};

verus! {

/// The paths of some files.
pub open spec fn paths_of(files: Seq<FileView>) -> Seq<PathView> {
    files.map_values(|f: FileView| f.full_path())
}

/// The paths with each path of a sequence flipped in turn.
pub open spec fn flipped_all(m: Map<Seq<Step>, Seq<u8>>, paths: Seq<PathView>) -> Map<
    Seq<Step>,
    Seq<u8>,
>
    decreases paths.len(),
{
    if paths.len() == 0 {
        m
    } else {
        flipped(flipped_all(m, paths.drop_last()), paths.last())
    }
}

/// The directory that is meant in the tree: the one that is highlighted, or the one in which the
/// highlighted file lies.
pub open spec fn meant_dir(node: NodeView) -> Seq<Step> {
    if node.is_dir {
        node.path
    } else {
        match path_parent(node.path) {
            Some(p) => p,
            None => node.path,
        }
    }
}

/// The displayed files that lie in a directory.
pub open spec fn files_of_dir(rows: Seq<(nat, NodeView)>, dir: Seq<Step>) -> Seq<PathView> {
    rows.filter(
        |r: (nat, NodeView)| !r.1.is_dir && path_parent(r.1.path) == Some(dir),
    ).map_values(|r: (nat, NodeView)| r.1.full_path())
}

/// The state with another selection.
pub open spec fn selecting(v: AppView, paths: Map<Seq<Step>, Seq<u8>>) -> AppView {
    AppView { selected_for_delete: paths, ..v }
}

/// The copy that is kept where all others are selected: the one that is highlighted.
pub open spec fn kept_path(v: AppView, f: FileView, g: usize) -> Seq<Step> {
    let others = copies(v.groups[g as int], f.path);
    if v.focus_right && right_index(v) > 0 && right_index(v) - 1 < others.len() {
        others[right_index(v) - 1].path
    } else {
        f.path
    }
}

/// The state once all copies of the highlighted file are selected but the highlighted one.
pub open spec fn kept_one(v: AppView) -> AppView {
    match chosen_file(v) {
        Some((f, g)) => selecting(
            v,
            with_paths(v.selected_for_delete, paths_of(v.groups[g as int])).remove(
                kept_path(v, f, g),
            ),
        ),
        None => v,
    }
}

/// The state once the selection is inverted: in the group of the highlighted file, or in the
/// directory that is meant in the tree.
pub open spec fn inverted(v: AppView) -> AppView {
    if v.focus_right {
        match chosen_file(v) {
            Some((f, g)) => selecting(
                v,
                flipped_all(v.selected_for_delete, paths_of(v.groups[g as int])),
            ),
            None => v,
        }
    } else {
        match current_node(v) {
            Some(node) => selecting(
                v,
                flipped_all(
                    v.selected_for_delete,
                    files_of_dir(current_rows(v), meant_dir(node)),
                ),
            ),
            None => v,
        }
    }
}

/// The state once all are selected: all copies in the group of the highlighted file, that file with
/// them, or the files of the directory that is meant in the tree.
pub open spec fn all_selected(v: AppView) -> AppView {
    if v.focus_right {
        match chosen_file(v) {
            Some((f, g)) => selecting(
                v,
                with_paths(v.selected_for_delete, paths_of(v.groups[g as int])),
            ),
            None => v,
        }
    } else {
        match current_node(v) {
            Some(node) => selecting(
                v,
                with_paths(
                    v.selected_for_delete,
                    files_of_dir(current_rows(v), meant_dir(node)),
                ),
            ),
            None => v,
        }
    }
}

/// The state once the highlighted directory is expanded or collapsed.
pub open spec fn toggled_dir(v: AppView) -> AppView {
    match current_node(v) {
        Some(node) => if !v.focus_right && node.is_dir {
            AppView { tree: toggled(v.tree, node.path), ..v }
        } else {
            v
        },
        None => v,
    }
}

/// The state once the highlighted file is selected or no longer selected. In the tree a
/// directory is expanded or collapsed instead.
pub open spec fn toggled_selection(v: AppView) -> AppView {
    if v.focus_right {
        match target(v) {
            Some(path) => selecting(v, flipped(v.selected_for_delete, path)),
            None => v,
        }
    } else {
        match current_node(v) {
            Some(node) => if !node.is_dir {
                selecting(v, flipped(v.selected_for_delete, node.full_path()))
            } else {
                toggled_dir(v)
            },
            None => v,
        }
    }
}

pub(crate) fn insert_all(set: &mut PathSet, paths: Vec<FilePath>)
    requires
        old(set).wf(),
    ensures
        final(set).wf(),
        final(set)@ == with_paths(old(set)@, full_paths_view(paths@)),
{
    let ghost ps = full_paths_view(paths@);
    let mut i: usize = 0;
    assert(ps.take(0) =~= Seq::<PathView>::empty());
    while i < paths.len()
        invariant
            i <= paths@.len(),
            ps == full_paths_view(paths@),
            set.wf(),
            set@ == with_paths(old(set)@, ps.take(i as int)),
        decreases paths@.len() - i,
    {
        assert(ps.take(i + 1).drop_last() =~= ps.take(i as int));
        set.insert(paths[i].clone());
        i += 1;
    }
    assert(ps.take(i as int) =~= ps);
}

fn flip_all(set: &mut PathSet, paths: Vec<FilePath>)
    requires
        old(set).wf(),
    ensures
        final(set).wf(),
        final(set)@ == flipped_all(old(set)@, full_paths_view(paths@)),
{
    let ghost ps = full_paths_view(paths@);
    let mut i: usize = 0;
    assert(ps.take(0) =~= Seq::<PathView>::empty());
    while i < paths.len()
        invariant
            i <= paths@.len(),
            ps == full_paths_view(paths@),
            set.wf(),
            set@ == flipped_all(old(set)@, ps.take(i as int)),
        decreases paths@.len() - i,
    {
        assert(ps.take(i + 1).drop_last() =~= ps.take(i as int));
        set.flip(paths[i].clone());
        i += 1;
    }
    assert(ps.take(i as int) =~= ps);
}

pub(crate) fn list_paths(group: &Vec<FileInfo>) -> (r: Vec<FilePath>)
    ensures
        full_paths_view(r@) == paths_of(group_view(group@)),
{
    let mut out: Vec<FilePath> = Vec::new();
    let mut i: usize = 0;
    while i < group.len()
        invariant
            i <= group@.len(),
            out@.len() == i,
            forall|j: int| 0 <= j < i ==> (#[trigger] out@[j]).full() == group@[j].path.full(),
        decreases group@.len() - i,
    {
        out.push(group[i].path.clone());
        i += 1;
    }
    assert(full_paths_view(out@) =~= paths_of(group_view(group@)));
    out
}

impl App {
    fn meant_files(&self) -> (r: Option<Vec<FilePath>>)
        requires
            self.inv(),
        ensures
            match current_node(self@) {
                Some(node) => r is Some && full_paths_view(r->0@) == files_of_dir(
                    current_rows(self@),
                    meant_dir(node),
                ),
                None => r is None,
            },
    {
        let flat = self.displayed();
        let ghost views = current_rows(self@);
        let node: &TreeNode = match self.left {
            Some(i) => if i < flat.len() {
                flat[i].1
            } else {
                return None;
            },
            None => {
                return None;
            },
        };
        let dir: FilePath = if node.is_dir {
            node.path.clone()
        } else {
            match node.path.parent() {
                Some(p) => p,
                None => node.path.clone(),
            }
        };
        assert(dir@ == meant_dir(node@));
        let ghost p = |r: (nat, NodeView)| !r.1.is_dir && path_parent(r.1.path) == Some(dir@);
        let ghost f = |r: (nat, NodeView)| r.1.full_path();
        let mut out: Vec<FilePath> = Vec::new();
        let mut i: usize = 0;
        proof {
            lemma_filter_ends(views, p);
            assert(full_paths_view(out@) =~= views.take(0).filter(p).map_values(f));
        }
        while i < flat.len()
            invariant
                i <= flat@.len() == views.len(),
                forall|i: int| 0 <= i < flat@.len() ==> (#[trigger] flat@[i]).1@ == views[i].1,
                p == (|r: (nat, NodeView)| !r.1.is_dir && path_parent(r.1.path) == Some(dir@)),
                f == (|r: (nat, NodeView)| r.1.full_path()),
                full_paths_view(out@) == views.take(i as int).filter(p).map_values(f),
            decreases flat@.len() - i,
        {
            let ghost out0 = full_paths_view(out@);
            proof {
                lemma_take_filter(views, p, i as int);
            }
            let n: &TreeNode = flat[i].1;
            if !n.is_dir {
                if let Some(parent) = n.path.parent() {
                    if parent.equals(&dir) {
                        out.push(n.path.clone());
                        assert(full_paths_view(out@) =~= out0.push(views[i as int].1.full_path()));
                    }
                }
            }
            i += 1;
            assert(full_paths_view(out@) =~= views.take(i as int).filter(p).map_values(f));
        }
        proof {
            lemma_filter_ends(views, p);
        }
        Some(out)
    }

    /// Selects all copies of the highlighted file but the highlighted one.
    pub fn keep_one_select_rest(&mut self)
        requires
            old(self).inv(),
        ensures
            final(self).inv(),
            final(self)@ == kept_one(old(self)@),
    {
        let (keep, g): (FilePath, usize) = match self.selected_file() {
            Some((f, g)) => {
                let at: usize = match self.right {
                    Some(i) => i,
                    None => 0,
                };
                let others = copies_of(&self.groups[g], &f.path);
                proof {
                    assert(self@.groups[g as int] == group_view(self.groups@[g as int]@));
                    assert(others@.map_values(|f: &FileInfo| f@).len() == others@.len());
                }
                if self.focus_right && at > 0 && at - 1 < others.len() {
                    assert(others@.map_values(|f: &FileInfo| f@)[at - 1] == others@[at - 1]@);
                    (others[at - 1].path.clone(), g)
                } else {
                    (f.path.clone(), g)
                }
            },
            None => {
                return;
            },
        };
        let paths = list_paths(&self.groups[g]);
        assert(self@.groups[g as int] == group_view(self.groups@[g as int]@));
        insert_all(&mut self.selected_for_delete, paths);
        self.selected_for_delete.remove(&keep);
    }

    /// Inverts the selection in the group, or in the directory that is meant.
    pub fn invert_selection(&mut self)
        requires
            old(self).inv(),
        ensures
            final(self).inv(),
            final(self)@ == inverted(old(self)@),
    {
        if self.focus_right {
            let g: usize = match self.selected_file() {
                Some((_, g)) => g,
                None => {
                    return;
                },
            };
            let paths = list_paths(&self.groups[g]);
            assert(self@.groups[g as int] == group_view(self.groups@[g as int]@));
            flip_all(&mut self.selected_for_delete, paths);
        } else {
            if let Some(paths) = self.meant_files() {
                flip_all(&mut self.selected_for_delete, paths);
            }
        }
    }

    /// Selects all copies in the group, or all files of the directory that is meant.
    pub fn select_all_in_group(&mut self)
        requires
            old(self).inv(),
        ensures
            final(self).inv(),
            final(self)@ == all_selected(old(self)@),
    {
        if self.focus_right {
            let paths = match self.selected_file() {
                Some((_, g)) => {
                    assert(self@.groups[g as int] == group_view(self.groups@[g as int]@));
                    list_paths(&self.groups[g])
                },
                None => {
                    return;
                },
            };
            insert_all(&mut self.selected_for_delete, paths);
        } else {
            if let Some(paths) = self.meant_files() {
                insert_all(&mut self.selected_for_delete, paths);
            }
        }
    }

    /// Expands or collapses the highlighted directory.
    pub fn toggle(&mut self)
        requires
            old(self).inv(),
        ensures
            final(self).inv(),
            final(self)@ == toggled_dir(old(self)@),
    {
        if self.focus_right {
            return;
        }
        let path: FilePath = match self.current() {
            Some(node) => if node.is_dir {
                node.path.clone()
            } else {
                return;
            },
            None => {
                return;
            },
        };
        self.tree.toggle_expand(&path);
        proof {
            lemma_toggling_keeps_inv(old(self)@.tree, path@, self@.groups);
        }
    }

    /// Selects or deselects the highlighted file.
    pub fn toggle_select(&mut self)
        requires
            old(self).inv(),
        ensures
            final(self).inv(),
            final(self)@ == toggled_selection(old(self)@),
    {
        if !self.focus_right {
            let path: FilePath = match self.current() {
                Some(node) => if !node.is_dir {
                    node.path.clone()
                } else {
                    self.toggle();
                    return;
                },
                None => {
                    return;
                },
            };
            self.selected_for_delete.flip(path);
            return;
        }
        if let Some(path) = self.target_path() {
            self.selected_for_delete.flip(path);
        }
    }

    /// Deselects all files.
    pub fn deselect_all(&mut self)
        requires
            old(self).inv(),
        ensures
            final(self).inv(),
            final(self)@ == selecting(old(self)@, Map::empty()),
    {
        self.selected_for_delete = PathSet::new();
    }
}

proof fn lemma_label_shape(groups: Seq<Seq<FileView>>)
    ensures
        childless(labelled(numbered(groups))),
        forall|n: NodeView, e: bool| #[trigger]
            labelled(numbered(groups))(n) ==> labelled(numbered(groups))(
                #[trigger] with_expanded(n, e),
            ),
{
}

/// Expanding or collapsing a directory keeps the invariant of the tree.
pub proof fn lemma_toggling_keeps_inv(tree: NodeView, path: Seq<Step>, groups: Seq<Seq<FileView>>)
    requires
        tree_inv(tree, groups),
    ensures
        tree_inv(toggled(tree, path), groups),
{
    lemma_label_shape(groups);
    toggling_keeps(tree, path, labelled(numbered(groups)));
    toggling_keeps_totals(tree, path);
    toggling_keeps_places(tree, path, seq![], tree.path);
}

/// Expanding or collapsing all directories keeps the invariant of the tree.
pub proof fn lemma_setting_keeps_inv(tree: NodeView, expanded: bool, groups: Seq<Seq<FileView>>)
    requires
        tree_inv(tree, groups),
    ensures
        tree_inv(all_set(tree, expanded), groups),
{
    lemma_label_shape(groups);
    setting_all_keeps(tree, expanded, labelled(numbered(groups)));
    setting_all_keeps_totals(tree, expanded);
    setting_all_keeps_places(tree, expanded, seq![], tree.path);
}

} // verus!
