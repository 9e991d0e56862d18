//! What selecting selects.
use vstd::prelude::*;

use crate::app::{app_inv, chosen_file, copies, target, AppView, DialogButton, DialogView};
use crate::app_laws::{inverted_paths, inverting_flips_each_file};
use crate::deletion::all_paths;
use crate::keys::{pressed, EffectView, KeyPress};
use crate::path::{path_parent, PathView, Step};
use crate::path_set::{putting_in_adds, steps_of, with_paths};
use crate::record::FileView;
use crate::selection::{
    all_selected, files_of_dir, inverted, kept_one, kept_path, meant_dir, paths_of,
    toggled_selection,
};
use crate::sequence::{ascend_below, ascending_positions_are_unique, lemma_filter_places};
use crate::tree::{rows, toggled, NodeView};

verus! {

/// Nothing but the selection differs.
pub open spec fn differs_in_selection(a: AppView, b: AppView) -> bool {
    b == (AppView { selected_for_delete: b.selected_for_delete, ..a })
}

/// Paths that were selected before keep the way in which they are written; one that is new is
/// written as in `files`.
pub open spec fn keeps_writings(a: AppView, b: AppView, files: Seq<PathView>) -> bool {
    forall|p: Seq<Step>| #[trigger]
        b.selected().contains(p) ==> if a.selected().contains(p) {
            b.selected_for_delete[p] == a.selected_for_delete[p]
        } else {
            files.contains(PathView { steps: p, written: b.selected_for_delete[p] })
        }
}

/// No dialog is open and no filter is typed, so that keys do what they do.
pub open spec fn takes_keys(v: AppView) -> bool {
    v.dialog is Closed && !v.filtering
}

/// Row `i` of the tree is highlighted, and shows this node.
pub open spec fn row_is_highlighted(v: AppView, i: int, node: NodeView) -> bool {
    &&& v.left matches Some(l) && l == i
    &&& 0 <= i < rows(v.tree, v.sort_mode).len()
    &&& rows(v.tree, v.sort_mode)[i].1 == node
}

/// The highlighted row shows a file of group `g`.
pub open spec fn file_is_highlighted(v: AppView, i: int, f: FileView, g: int) -> bool {
    &&& 0 <= i < rows(v.tree, v.sort_mode).len()
    &&& row_is_highlighted(v, i, rows(v.tree, v.sort_mode)[i].1)
    &&& rows(v.tree, v.sort_mode)[i].1.file_info == Some(f)
    &&& 0 <= g < v.groups.len()
    &&& rows(v.tree, v.sort_mode)[i].1.group_index matches Some(n) && n == g
}

/// The positions in a group of the files at other paths than the given one, all of them.
pub open spec fn are_the_copies(at: Seq<int>, group: Seq<FileView>, path: Seq<Step>) -> bool {
    &&& ascend_below(at, group.len() as int)
    &&& forall|k: int| 0 <= k < at.len() ==> group[#[trigger] at[k]].path != path
    &&& forall|i: int|
        0 <= i < group.len() && (#[trigger] group[i]).path != path ==> at.contains(i)
}

pub proof fn lemma_copies(at: Seq<int>, group: Seq<FileView>, path: Seq<Step>)
    requires
        are_the_copies(at, group, path),
    ensures
        copies(group, path).len() == at.len(),
        forall|k: int| 0 <= k < at.len() ==> copies(group, path)[k] == group[#[trigger] at[k]],
{
    let p = |f: FileView| f.path != path;
    let ks = lemma_filter_places(group, p);
    assert forall|k: int| 0 <= k < ks.len() implies at.contains(#[trigger] ks[k]) by {
        assert(p(group[ks[k]]));
    }
    assert forall|k: int| 0 <= k < at.len() implies ks.contains(#[trigger] at[k]) by {
        assert(p(group[at[k]]));
    }
    ascending_positions_are_unique(ks, at, group.len() as int);
}

// ---------------------------------------------------------------------------
// In the tree
// ---------------------------------------------------------------------------

/// The directory that is meant: the highlighted one, or the one in which the highlighted file lies.
pub open spec fn is_meant(node: NodeView, dir: Seq<Step>) -> bool {
    if node.is_dir {
        dir == node.path
    } else {
        path_parent(node.path) == Some(dir) || (path_parent(node.path) is None && dir == node.path)
    }
}

/// A file with that path is displayed, and lies directly in the directory.
pub open spec fn lies_directly_in(v: AppView, dir: Seq<Step>, p: Seq<Step>) -> bool {
    &&& path_parent(p) == Some(dir)
    &&& exists|k: int|
        0 <= k < rows(v.tree, v.sort_mode).len() && (#[trigger] rows(
            v.tree,
            v.sort_mode,
        )[k]).1.path == p && !rows(v.tree, v.sort_mode)[k].1.is_dir
}

/// A path lies directly in a directory if it is that of the directory with one step more.
pub proof fn parents_are_one_step_up(p: Seq<Step>, dir: Seq<Step>)
    ensures
        path_parent(p) == Some(dir) <==> (p.len() == dir.len() + 1 && (forall|i: int|
            0 <= i < dir.len() ==> #[trigger] p[i] == dir[i]) && p[dir.len() as int]
            != Step::RootDir),
{
    if p.len() == dir.len() + 1 && (forall|i: int|
        0 <= i < dir.len() ==> #[trigger] p[i] == dir[i]) {
        assert(p.drop_last() =~= dir);
    }
    if path_parent(p) == Some(dir) {
        assert forall|i: int| 0 <= i < dir.len() implies #[trigger] p[i] == dir[i] by {
            assert(p.drop_last()[i] == p[i]);
        }
    }
}

proof fn lemma_files_of_dir(v: AppView, dir: Seq<Step>, p: Seq<Step>)
    ensures
        steps_of(files_of_dir(rows(v.tree, v.sort_mode), dir)).contains(p) == lies_directly_in(
            v,
            dir,
            p,
        ),
{
    let all = rows(v.tree, v.sort_mode);
    let meant = |r: (nat, NodeView)| !r.1.is_dir && path_parent(r.1.path) == Some(dir);
    let at = lemma_filter_places(all, meant);
    let kept = all.filter(meant);
    let names = steps_of(files_of_dir(all, dir));
    assert(names.len() == kept.len());
    assert forall|k: int| 0 <= k < kept.len() implies names[k] == (#[trigger] kept[k]).1.path by {}
    if names.contains(p) {
        let k = choose|k: int| 0 <= k < names.len() && names[k] == p;
        assert(kept[k] == all[at[k]]);
        assert(meant(all[at[k]]));
        assert(all[at[k]].1.path == p);
    }
    if lies_directly_in(v, dir, p) {
        let k = choose|k: int|
            0 <= k < all.len() && (#[trigger] all[k]).1.path == p && !all[k].1.is_dir;
        assert(meant(all[k]));
        let m = choose|m: int| 0 <= m < at.len() && at[m] == k;
        assert(kept[m] == all[at[m]]);
        assert(names[m] == p);
    }
}

proof fn lemma_writings(
    a: Map<Seq<Step>, Seq<u8>>,
    files: Seq<PathView>,
    p: Seq<Step>,
)
    requires
        with_paths(a, files).dom().contains(p),
    ensures
        a.dom().contains(p) ==> with_paths(a, files)[p] == a[p],
        !a.dom().contains(p) ==> files.contains(
            PathView { steps: p, written: with_paths(a, files)[p] },
        ),
    decreases files.len(),
{
    if files.len() > 0 {
        let front = files.drop_last();
        putting_in_adds(a, front);
        if with_paths(a, front).dom().contains(p) {
            lemma_writings(a, front, p);
            if !a.dom().contains(p) {
                let q = PathView { steps: p, written: with_paths(a, front)[p] };
                let i = choose|i: int| 0 <= i < front.len() && front[i] == q;
                assert(files[i] == q);
            }
        } else {
            assert(files[files.len() - 1] == files.last());
            assert(files.last() == (PathView { steps: p, written: with_paths(a, files)[p] }));
        }
    }
}

/// In the tree, `a` selects the displayed files that lie directly in the directory that is meant,
/// and no other: a path in another directory, above or below it, is selected if and only if it was.
pub proof fn all_files_of_the_directory_are_selected(
    v: AppView,
    i: int,
    node: NodeView,
    dir: Seq<Step>,
)
    requires
        takes_keys(v),
        !v.focus_right,
        row_is_highlighted(v, i, node),
        is_meant(node, dir),
    ensures
        pressed(v, KeyPress::Char('a')) == (all_selected(v), EffectView::Nothing),
        differs_in_selection(v, all_selected(v)),
        forall|p: Seq<Step>| #[trigger]
            all_selected(v).selected().contains(p) <==> v.selected().contains(p)
                || lies_directly_in(v, dir, p),
        keeps_writings(
            v,
            all_selected(v),
            rows(v.tree, v.sort_mode).map_values(|r: (nat, NodeView)| r.1.full_path()),
        ),
{
    let all = rows(v.tree, v.sort_mode);
    let files = files_of_dir(all, dir);
    let after = all_selected(v);
    let every = all.map_values(|r: (nat, NodeView)| r.1.full_path());
    assert(meant_dir(node) == dir);
    putting_in_adds(v.selected_for_delete, files);
    assert forall|p: Seq<Step>| #[trigger] after.selected().contains(p) <==> v.selected().contains(p)
        || lies_directly_in(v, dir, p) by {
        lemma_files_of_dir(v, dir, p);
    }
    assert forall|p: Seq<Step>| #[trigger] after.selected().contains(p) implies if v.selected().contains(
        p,
    ) {
        after.selected_for_delete[p] == v.selected_for_delete[p]
    } else {
        every.contains(PathView { steps: p, written: after.selected_for_delete[p] })
    } by {
        lemma_writings(v.selected_for_delete, files, p);
        if !v.selected().contains(p) {
            let meant = |r: (nat, NodeView)| !r.1.is_dir && path_parent(r.1.path) == Some(dir);
            let at = lemma_filter_places(all, meant);
            let q = PathView { steps: p, written: after.selected_for_delete[p] };
            let k = choose|k: int| 0 <= k < files.len() && files[k] == q;
            assert(all.filter(meant)[k] == all[at[k]]);
            assert(every[at[k]] == q);
        }
    }
}

/// In the tree, `i` selects each displayed file that lies directly in the directory that is meant
/// where it was not selected, deselects it where it was, and changes no other.
pub proof fn all_files_of_the_directory_are_inverted(
    v: AppView,
    i: int,
    node: NodeView,
    dir: Seq<Step>,
)
    requires
        app_inv(v),
        takes_keys(v),
        !v.focus_right,
        row_is_highlighted(v, i, node),
        is_meant(node, dir),
    ensures
        pressed(v, KeyPress::Char('i')) == (inverted(v), EffectView::Nothing),
        differs_in_selection(v, inverted(v)),
        forall|p: Seq<Step>| #[trigger]
            inverted(v).selected().contains(p) <==> v.selected().contains(p) != lies_directly_in(
                v,
                dir,
                p,
            ),
{
    assert(meant_dir(node) == dir);
    assert forall|p: Seq<Step>| #[trigger]
        inverted(v).selected().contains(p) <==> v.selected().contains(p) != lies_directly_in(
            v,
            dir,
            p,
        ) by {
        inverting_flips_each_file(v, p);
        lemma_files_of_dir(v, dir, p);
    }
}

/// In the tree, the space bar selects the highlighted file where it was not selected, deselects it
/// where it was, and changes no other; a directory is expanded or collapsed by it, as by Enter, and
/// nothing is selected.
pub proof fn space_flips_the_highlighted_file(v: AppView, i: int, node: NodeView)
    requires
        takes_keys(v),
        !v.focus_right,
        row_is_highlighted(v, i, node),
    ensures
        pressed(v, KeyPress::Char(' ')) == (toggled_selection(v), EffectView::Nothing),
        !node.is_dir ==> {
            &&& differs_in_selection(v, toggled_selection(v))
            &&& forall|p: Seq<Step>| #[trigger]
                toggled_selection(v).selected().contains(p) <==> v.selected().contains(p) != (p
                    == node.path)
            &&& keeps_writings(v, toggled_selection(v), seq![node.full_path()])
        },
        node.is_dir ==> toggled_selection(v) == (AppView {
            tree: toggled(v.tree, node.path),
            ..v
        }),
        pressed(v, KeyPress::Enter) == (
            if node.is_dir {
                AppView { tree: toggled(v.tree, node.path), ..v }
            } else {
                v
            },
            EffectView::Nothing,
        ),
{
    assert(seq![node.full_path()][0] == node.full_path());
}

// ---------------------------------------------------------------------------
// Among the copies
// ---------------------------------------------------------------------------

/// A file of the group has that path.
pub open spec fn is_in_group(group: Seq<FileView>, p: Seq<Step>) -> bool {
    exists|i: int| 0 <= i < group.len() && (#[trigger] group[i]).path == p
}

proof fn lemma_paths_of(group: Seq<FileView>, p: Seq<Step>)
    ensures
        steps_of(paths_of(group)).contains(p) == is_in_group(group, p),
{
    let names = steps_of(paths_of(group));
    assert forall|i: int| 0 <= i < group.len() implies names[i] == (#[trigger] group[i]).path by {}
    if names.contains(p) {
        let i = choose|i: int| 0 <= i < names.len() && names[i] == p;
        assert(group[i].path == p);
    }
    if is_in_group(group, p) {
        let i = choose|i: int| 0 <= i < group.len() && (#[trigger] group[i]).path == p;
        assert(names[i] == p);
    }
}

/// Among the copies, `a` selects the whole group of the highlighted file, and nothing else.
pub proof fn all_files_of_the_group_are_selected(v: AppView, i: int, f: FileView, g: int)
    requires
        takes_keys(v),
        v.focus_right,
        file_is_highlighted(v, i, f, g),
    ensures
        pressed(v, KeyPress::Char('a')) == (all_selected(v), EffectView::Nothing),
        differs_in_selection(v, all_selected(v)),
        forall|p: Seq<Step>| #[trigger]
            all_selected(v).selected().contains(p) <==> v.selected().contains(p) || is_in_group(
                v.groups[g],
                p,
            ),
        keeps_writings(
            v,
            all_selected(v),
            v.groups[g].map_values(|x: FileView| x.full_path()),
        ),
{
    let files = paths_of(v.groups[g]);
    assert(files =~= v.groups[g].map_values(|x: FileView| x.full_path()));
    putting_in_adds(v.selected_for_delete, files);
    assert forall|p: Seq<Step>| #[trigger]
        all_selected(v).selected().contains(p) <==> v.selected().contains(p) || is_in_group(
            v.groups[g],
            p,
        ) by {
        lemma_paths_of(v.groups[g], p);
    }
    assert forall|p: Seq<Step>| #[trigger] all_selected(v).selected().contains(p) implies if v.selected().contains(
        p,
    ) {
        all_selected(v).selected_for_delete[p] == v.selected_for_delete[p]
    } else {
        files.contains(PathView { steps: p, written: all_selected(v).selected_for_delete[p] })
    } by {
        lemma_writings(v.selected_for_delete, files, p);
    }
}

/// Among the copies, `i` inverts the selection in the group of the highlighted file, and changes
/// nothing else. The paths in the group differ.
pub proof fn all_files_of_the_group_are_inverted(v: AppView, i: int, f: FileView, g: int)
    requires
        app_inv(v),
        takes_keys(v),
        v.focus_right,
        file_is_highlighted(v, i, f, g),
        forall|a: int, b: int|
            0 <= a < b < v.groups[g].len() ==> (#[trigger] v.groups[g][a]).path != (
            #[trigger] v.groups[g][b]).path,
    ensures
        pressed(v, KeyPress::Char('i')) == (inverted(v), EffectView::Nothing),
        differs_in_selection(v, inverted(v)),
        forall|p: Seq<Step>| #[trigger]
            inverted(v).selected().contains(p) <==> v.selected().contains(p) != is_in_group(
                v.groups[g],
                p,
            ),
{
    let names = steps_of(inverted_paths(v));
    assert forall|a: int, b: int| 0 <= a < names.len() && 0 <= b < names.len() && a != b implies
        names[a] != names[b] by {
        assert(names[a] == v.groups[g][a].path && names[b] == v.groups[g][b].path);
        if a < b {
            assert(v.groups[g][a].path != v.groups[g][b].path);
        } else {
            assert(v.groups[g][b].path != v.groups[g][a].path);
        }
    }
    assert(names.no_duplicates());
    assert forall|p: Seq<Step>| #[trigger]
        inverted(v).selected().contains(p) <==> v.selected().contains(p) != is_in_group(
            v.groups[g],
            p,
        ) by {
        inverting_flips_each_file(v, p);
        lemma_paths_of(v.groups[g], p);
    }
}

/// The row that is highlighted among the copies shows this file: the first row the one that is
/// highlighted in the tree, and each row below it the next of the files at other paths.
pub open spec fn copy_is_highlighted(
    v: AppView,
    f: FileView,
    g: int,
    at: Seq<int>,
    shown: FileView,
) -> bool {
    &&& are_the_copies(at, v.groups[g], f.path)
    &&& match v.right {
        None => shown == f,
        Some(r) => if r == 0 {
            shown == f
        } else {
            r - 1 < at.len() && shown == v.groups[g][at[r - 1]]
        },
    }
}

/// Among the copies, the space bar selects the highlighted copy where it was not selected,
/// deselects it where it was, and changes no other.
pub proof fn space_flips_the_highlighted_copy(
    v: AppView,
    i: int,
    f: FileView,
    g: int,
    at: Seq<int>,
    shown: FileView,
)
    requires
        takes_keys(v),
        v.focus_right,
        file_is_highlighted(v, i, f, g),
        copy_is_highlighted(v, f, g, at, shown),
    ensures
        target(v) == Some(shown.full_path()),
        pressed(v, KeyPress::Char(' ')) == (toggled_selection(v), EffectView::Nothing),
        differs_in_selection(v, toggled_selection(v)),
        forall|p: Seq<Step>| #[trigger]
            toggled_selection(v).selected().contains(p) <==> v.selected().contains(p) != (p
                == shown.path),
        keeps_writings(v, toggled_selection(v), seq![shown.full_path()]),
        pressed(v, KeyPress::Char('o')) == (v, EffectView::Open { path: shown.full_path() }),
{
    lemma_copies(at, v.groups[g], f.path);
    assert(seq![shown.full_path()][0] == shown.full_path());
}

/// `x` keeps the highlighted copy: it is not selected afterwards, every other file of its group is,
/// and nothing outside the group changes. In the tree the highlighted copy is the file itself.
pub proof fn the_highlighted_copy_is_kept(
    v: AppView,
    i: int,
    f: FileView,
    g: int,
    at: Seq<int>,
    shown: FileView,
)
    requires
        takes_keys(v),
        file_is_highlighted(v, i, f, g),
        are_the_copies(at, v.groups[g], f.path),
        if v.focus_right {
            copy_is_highlighted(v, f, g, at, shown)
        } else {
            shown == f
        },
    ensures
        pressed(v, KeyPress::Char('x')) == (kept_one(v), EffectView::Nothing),
        differs_in_selection(v, kept_one(v)),
        forall|p: Seq<Step>| #[trigger]
            kept_one(v).selected().contains(p) <==> (v.selected().contains(p) || is_in_group(
                v.groups[g],
                p,
            )) && p != shown.path,
{
    lemma_copies(at, v.groups[g], f.path);
    putting_in_adds(v.selected_for_delete, paths_of(v.groups[g]));
    assert(kept_path(v, f, g as usize) == shown.path);
    assert forall|p: Seq<Step>| #[trigger]
        kept_one(v).selected().contains(p) <==> (v.selected().contains(p) || is_in_group(
            v.groups[g],
            p,
        )) && p != shown.path by {
        lemma_paths_of(v.groups[g], p);
    }
}

// ---------------------------------------------------------------------------
// Everywhere
// ---------------------------------------------------------------------------

/// `u` deselects everything.
pub proof fn everything_is_deselected(v: AppView)
    requires
        takes_keys(v),
    ensures
        pressed(v, KeyPress::Char('u')).1 is Nothing,
        pressed(v, KeyPress::Char('u')).0.selected() == Set::<Seq<Step>>::empty(),
        differs_in_selection(v, pressed(v, KeyPress::Char('u')).0),
{
}

proof fn lemma_all_paths(groups: Seq<Seq<FileView>>, p: Seq<Step>)
    ensures
        steps_of(all_paths(groups)).contains(p) == exists|g: int|
            0 <= g < groups.len() && is_in_group(#[trigger] groups[g], p),
    decreases groups.len(),
{
    let names = steps_of(all_paths(groups));
    if groups.len() > 0 {
        let front = groups.drop_last();
        lemma_all_paths(front, p);
        lemma_paths_of(groups.last(), p);
        let some = steps_of(all_paths(front));
        let own = steps_of(paths_of(groups.last()));
        assert(names =~= some + own);
        if some.contains(p) {
            let i = choose|i: int| 0 <= i < some.len() && some[i] == p;
            assert(names[i] == p);
            let g = choose|g: int| 0 <= g < front.len() && is_in_group(#[trigger] front[g], p);
            assert(groups[g] == front[g]);
        }
        if own.contains(p) {
            let i = choose|i: int| 0 <= i < own.len() && own[i] == p;
            assert(names[some.len() + i] == p);
            assert(groups[groups.len() - 1] == groups.last());
        }
        if names.contains(p) {
            let i = choose|i: int| 0 <= i < names.len() && names[i] == p;
            if i < some.len() {
                assert(some[i] == p);
            } else {
                assert(own[i - some.len()] == p);
            }
        }
        if exists|g: int| 0 <= g < groups.len() && is_in_group(#[trigger] groups[g], p) {
            let g = choose|g: int| 0 <= g < groups.len() && is_in_group(#[trigger] groups[g], p);
            if g < front.len() {
                assert(front[g] == groups[g]);
            }
        }
    } else {
        assert(names.len() == 0);
    }
}

/// Where deleting is allowed, `S` selects every file of every group, whatever the filter hides, and
/// asks whether to delete them. Where it is not, it does nothing.
pub proof fn everything_is_selected(v: AppView)
    requires
        takes_keys(v),
    ensures
        pressed(v, KeyPress::Char('S')).1 is Nothing,
        v.read_only ==> pressed(v, KeyPress::Char('S')).0 == v,
        !v.read_only ==> {
            let after = pressed(v, KeyPress::Char('S')).0;
            &&& forall|p: Seq<Step>| #[trigger]
                after.selected().contains(p) <==> v.selected().contains(p) || exists|g: int|
                    0 <= g < v.groups.len() && is_in_group(#[trigger] v.groups[g], p)
            &&& after.selected() != Set::<Seq<Step>>::empty() ==> after.dialog == (
            DialogView::ConfirmDelete { scroll: Some(0), button: DialogButton::Cancel })
            &&& after.selected() == Set::<Seq<Step>>::empty() ==> after.dialog is Closed
            &&& after == (AppView {
                selected_for_delete: after.selected_for_delete,
                dialog: after.dialog,
                ..v
            })
        },
{
    putting_in_adds(v.selected_for_delete, all_paths(v.groups));
    let after = pressed(v, KeyPress::Char('S')).0;
    if !v.read_only {
        assert forall|p: Seq<Step>| #[trigger]
            after.selected().contains(p) <==> v.selected().contains(p) || exists|g: int|
                0 <= g < v.groups.len() && is_in_group(#[trigger] v.groups[g], p) by {
            lemma_all_paths(v.groups, p);
        }
    }
}

/// `d` asks whether to delete what is selected, where that is allowed and anything is. Nothing is
/// deleted by asking.
pub proof fn deleting_is_asked_for(v: AppView)
    requires
        takes_keys(v),
    ensures
        pressed(v, KeyPress::Char('d')).1 is Nothing,
        pressed(v, KeyPress::Char('d')).0 == if v.read_only || v.selected() == Set::<
            Seq<Step>,
        >::empty() {
            v
        } else {
            AppView {
                dialog: DialogView::ConfirmDelete { scroll: Some(0), button: DialogButton::Cancel },
                ..v
            }
        },
{
}

// ---------------------------------------------------------------------------
// Where nothing is highlighted
// ---------------------------------------------------------------------------

/// No row of the tree is highlighted.
pub open spec fn no_row_is_highlighted(v: AppView) -> bool {
    v.left matches Some(i) ==> i >= rows(v.tree, v.sort_mode).len()
}

/// The highlighted row of the tree, if any, shows no file of a group.
pub open spec fn no_file_is_highlighted(v: AppView) -> bool {
    forall|i: int, node: NodeView| #[trigger]
        row_is_highlighted(v, i, node) ==> node.file_info is None || node.group_index is None
}

/// Where no row is highlighted in the tree, the keys that are about it do nothing; nor do those that
/// are about copies where no file is highlighted. Enter and going to a copy are for one pane only.
pub proof fn keys_without_a_highlight_do_nothing(v: AppView)
    requires
        takes_keys(v),
    ensures
        no_row_is_highlighted(v) && !v.focus_right ==> {
            &&& pressed(v, KeyPress::Char(' ')) == (v, EffectView::Nothing)
            &&& pressed(v, KeyPress::Enter) == (v, EffectView::Nothing)
            &&& pressed(v, KeyPress::Char('a')) == (v, EffectView::Nothing)
            &&& pressed(v, KeyPress::Char('i')) == (v, EffectView::Nothing)
            &&& pressed(v, KeyPress::Char('o')) == (v, EffectView::Nothing)
        },
        no_file_is_highlighted(v) && v.focus_right ==> {
            &&& pressed(v, KeyPress::Char(' ')) == (v, EffectView::Nothing)
            &&& pressed(v, KeyPress::Char('a')) == (v, EffectView::Nothing)
            &&& pressed(v, KeyPress::Char('i')) == (v, EffectView::Nothing)
            &&& pressed(v, KeyPress::Char('g')) == (v, EffectView::Nothing)
            &&& pressed(v, KeyPress::Char('o')) == (v, EffectView::Nothing)
        },
        no_file_is_highlighted(v) ==> pressed(v, KeyPress::Char('x')) == (v, EffectView::Nothing),
        v.focus_right ==> pressed(v, KeyPress::Enter) == (v, EffectView::Nothing),
        !v.focus_right ==> pressed(v, KeyPress::Char('g')) == (v, EffectView::Nothing),
{
    if no_file_is_highlighted(v) {
        if let Some(i) = v.left {
            if i < rows(v.tree, v.sort_mode).len() {
                assert(row_is_highlighted(v, i as int, rows(v.tree, v.sort_mode)[i as int].1));
            }
        }
        assert(chosen_file(v) is None);
    }
}


} // verus!
