//! What holds of the interface, whatever is pressed.
use vstd::prelude::*;

use crate::app::{
    app_inv, chosen_file, copies, current_node, current_rows, moved_down, moved_up, right_index,
    target, AppView, DeleteErrorButton, DeletionView, DialogButton, DialogView, StatusView,
};
use crate::cache::has_several;
use crate::deletion::{
    delete_asked, delete_begun, delete_failed, delete_finished, delete_looked, delete_succeeded,
    given_up, is_permanent, left_over, next_item, next_job, passed_over, pending, trash_of, without,
    JobView,
};
use crate::keys::{
    button_left, button_right, confirm_key, filter_key, moused, next_choice, pressed, EffectView,
    KeyPress, MouseAction,
};
use crate::outline::{filtered, matches_filter, next_mode, rebuilt, resorted, row_of, shown_in_tree};
use crate::path::{path_parent, path_strip, PathView, Step};
use crate::path_set::{listing, listing_exists, putting_in_adds, steps_of};
use crate::places::{
    no_file_is_displayed_twice, passes_by, toggling_keeps_places, toggling_opens_the_way,
    well_placed,
};
use crate::record::FileView;
use crate::selection::{
    all_selected, files_of_dir, flipped_all, inverted, kept_one, kept_path, meant_dir, paths_of,
};
use crate::sequence::{lemma_filter_distinct, lemma_filter_part};
use crate::tree::{numbered, rows, toggled, tree_of, well_formed, NodeView, SortMode};
use crate::tree_laws::{
    all_nodes, built_trees_are_labelled, displayed_rows_are_nodes, in_group, labelled, lookup,
    open_ways_are_displayed, way_is_open,
};
use crate::view::fully_selected;

verus! {

// ---------------------------------------------------------------------------
// Read-only
// ---------------------------------------------------------------------------

/// Files are being deleted, or it is asked whether to delete them.
pub open spec fn is_delete_dialog(d: DialogView) -> bool {
    match d {
        DialogView::ConfirmDelete { .. } => true,
        DialogView::Deleting { .. } => true,
        DialogView::DeleteError { .. } => true,
        _ => false,
    }
}

/// In read-only mode no key leads to a deletion: none is asked for, none is prepared, and there is
/// no file to delete next.
pub proof fn read_only_never_deletes(v: AppView, key: KeyPress)
    requires
        v.read_only,
        !is_delete_dialog(v.dialog),
    ensures
        pressed(v, key).0.read_only,
        !is_delete_dialog(pressed(v, key).0.dialog),
        !(pressed(v, key).1 is PrepareTrash),
        next_job(pressed(v, key).0) is None,
{
}

/// In read-only mode the mouse does not lead to a deletion either.
pub proof fn read_only_mouse_never_deletes(v: AppView, action: MouseAction, width: u16)
    requires
        v.read_only,
        !is_delete_dialog(v.dialog),
    ensures
        moused(v, action, width).read_only,
        !is_delete_dialog(moused(v, action, width).dialog),
{
}

/// No key changes whether the interface is read-only.
pub proof fn keys_keep_read_only(v: AppView, key: KeyPress)
    ensures
        pressed(v, key).0.read_only == v.read_only,
        pressed(v, key).0.root == v.root,
{
}

// ---------------------------------------------------------------------------
// Dialogs
// ---------------------------------------------------------------------------

/// The two directions through the buttons undo each other, and three steps lead round.
pub proof fn buttons_go_round(b: DialogButton)
    ensures
        button_left(button_right(b)) == b,
        button_right(button_left(b)) == b,
        button_right(button_right(button_right(b))) == b,
{
}

/// Three steps lead round the buttons on a deletion that failed.
pub proof fn choices_go_round(b: DeleteErrorButton)
    ensures
        next_choice(next_choice(next_choice(b))) == b,
{
}

/// The delete dialog opens on the button that deletes nothing.
pub proof fn cancel_is_the_default(v: AppView)
    requires
        v.selected() != Set::<Seq<Step>>::empty(),
    ensures
        delete_asked(v).dialog == (DialogView::ConfirmDelete {
            scroll: Some(0),
            button: DialogButton::Cancel,
        }),
{
}

/// Cancelling the delete dialog, by its button or by Escape, changes nothing but that it is
/// closed.
pub proof fn cancelling_changes_nothing(v: AppView, scroll: Option<usize>, button: DialogButton)
    ensures
        confirm_key(v, scroll, DialogButton::Cancel, KeyPress::Enter) == (
            AppView { dialog: DialogView::Closed, ..v },
            EffectView::Nothing,
        ),
        confirm_key(v, scroll, button, KeyPress::Esc) == (
            AppView { dialog: DialogView::Closed, ..v },
            EffectView::Nothing,
        ),
{
}

/// Where no dialog is open and no filter is typed, the program is left by `q` and by Escape if and
/// only if nothing is selected; else it is asked first.
pub proof fn quitting_is_confirmed(v: AppView, key: KeyPress)
    requires
        v.dialog is Closed,
        !v.filtering,
        key == KeyPress::Esc || key == KeyPress::Char('q'),
    ensures
        pressed(v, key).1 is Quit <==> v.selected() == Set::<Seq<Step>>::empty(),
        !(pressed(v, key).1 is Quit) ==> pressed(v, key).0.dialog is ConfirmQuit,
        pressed(v, key).0.selected_for_delete == v.selected_for_delete,
{
}

// ---------------------------------------------------------------------------
// Sorting and filtering
// ---------------------------------------------------------------------------

/// The sort modes go round in four steps, by all modes.
pub proof fn sort_modes_go_round(mode: SortMode)
    ensures
        next_mode(next_mode(next_mode(next_mode(mode)))) == mode,
        next_mode(SortMode::Name) == SortMode::Size,
        next_mode(SortMode::Size) == SortMode::Date,
        next_mode(SortMode::Date) == SortMode::Count,
        next_mode(SortMode::Count) == SortMode::Name,
{
}

/// Sorting keeps the selection, and the tree holds all groups again that the filter lets through.
pub proof fn sorting_keeps_the_selection(v: AppView)
    ensures
        resorted(v).selected_for_delete == v.selected_for_delete,
        resorted(v).sort_mode == next_mode(v.sort_mode),
        resorted(v).tree == tree_of(filtered(resorted(v).groups, v.filter), v.root),
{
}

/// Escape while the filter is typed brings all groups back.
pub proof fn escape_clears_the_filter(v: AppView)
    ensures
        filter_key(v, KeyPress::Esc).filter == Seq::<char>::empty(),
        !filter_key(v, KeyPress::Esc).filtering,
        filter_key(v, KeyPress::Esc).tree == tree_of(numbered(v.groups), v.root),
{
}

/// What a filter leaves of the tree: every file that is displayed belongs to a group of which some
/// path has the filter in it.
pub proof fn filter_narrows_the_tree(v: AppView, i: int)
    requires
        v.filter.len() > 0,
        v.groups.len() <= usize::MAX,
        0 <= i < current_rows(rebuilt(v)).len(),
        current_rows(rebuilt(v))[i].1.file_info is Some,
    ensures
        ({
            let node = current_rows(rebuilt(v))[i].1;
            &&& node.group_index is Some
            &&& node.group_index->0 < v.groups.len()
            &&& v.groups[node.group_index->0 as int].contains(node.file_info->0)
            &&& matches_filter(v.groups[node.group_index->0 as int], v.filter)
        }),
{
    let part = filtered(v.groups, v.filter);
    let tree = tree_of(part, v.root);
    let node = current_rows(rebuilt(v))[i].1;
    built_trees_are_labelled(part, v.root);
    displayed_rows_are_nodes(tree, v.sort_mode, labelled(part));
    assert(all_nodes(node, labelled(part)));
    assert(in_group(part, node.file_info->0, node.group_index->0));
    let k = choose|k: int|
        0 <= k < part.len() && (#[trigger] part[k]).0 == node.group_index->0 && part[k].1.contains(
            node.file_info->0,
        );
    let all = numbered(v.groups);
    let p = |g: (usize, Seq<FileView>)| matches_filter(g.1, v.filter);
    all.lemma_filter_pred(p, k);
    lemma_filter_part(all, p, k);
    let g = choose|g: int| 0 <= g < all.len() && all[g] == part[k];
    assert(all[g] == (g as usize, v.groups[g]));
}

// ---------------------------------------------------------------------------
// Selecting
// ---------------------------------------------------------------------------

/// Once all copies but one are selected, that one is not selected and every other is. So the group
/// is never selected completely.
pub proof fn one_copy_is_kept(v: AppView)
    requires
        chosen_file(v) is Some,
        v.groups[(chosen_file(v)->0).1 as int].contains((chosen_file(v)->0).0),
    ensures
        ({
            let (f, g) = chosen_file(v)->0;
            let group = v.groups[g as int];
            let keep = kept_path(v, f, g);
            let after = kept_one(v).selected();
            &&& !after.contains(keep)
            &&& exists|i: int| 0 <= i < group.len() && (#[trigger] group[i]).path == keep
            &&& forall|i: int|
                0 <= i < group.len() && (#[trigger] group[i]).path != keep ==> after.contains(
                    group[i].path,
                )
            &&& !fully_selected(group, after)
        }),
{
    let (f, g) = chosen_file(v)->0;
    let group = v.groups[g as int];
    let keep = kept_path(v, f, g);
    let after = kept_one(v).selected();
    let others = copies(group, f.path);
    let p = |x: FileView| x.path != f.path;
    let at = right_index(v) - 1;
    let names = steps_of(paths_of(group));
    putting_in_adds(v.selected_for_delete, paths_of(group));
    assert(exists|i: int| 0 <= i < group.len() && (#[trigger] group[i]).path == keep) by {
        if v.focus_right && at >= 0 && at < others.len() {
            lemma_filter_part(group, p, at);
            let i = choose|i: int| 0 <= i < group.len() && group[i] == others[at];
            assert(group[i].path == keep);
        } else {
            let i = choose|i: int| 0 <= i < group.len() && group[i] == f;
            assert(group[i].path == keep);
        }
    }
    assert forall|i: int| 0 <= i < group.len() && (#[trigger] group[i]).path != keep implies
        after.contains(group[i].path) by {
        assert(names[i] == group[i].path);
        assert(names.contains(group[i].path));
    }
    let k = choose|i: int| 0 <= i < group.len() && (#[trigger] group[i]).path == keep;
    assert(!after.contains(group[k].path));
}

/// Selecting all copies of the highlighted file selects its whole group, and nothing besides:
/// nothing is deselected, and nothing outside the group is added.
pub proof fn whole_group_is_selected(v: AppView)
    requires
        v.focus_right,
        chosen_file(v) is Some,
    ensures
        ({
            let group = v.groups[(chosen_file(v)->0).1 as int];
            let after = all_selected(v).selected();
            &&& v.selected().subset_of(after)
            &&& fully_selected(group, after)
            &&& forall|p: Seq<Step>| #[trigger]
                after.contains(p) && !v.selected().contains(p) ==> exists|i: int|
                    0 <= i < group.len() && (#[trigger] group[i]).path == p
        }),
{
    let group = v.groups[(chosen_file(v)->0).1 as int];
    let after = all_selected(v).selected();
    let names = steps_of(paths_of(group));
    putting_in_adds(v.selected_for_delete, paths_of(group));
    assert forall|i: int| 0 <= i < group.len() implies after.contains(
        (#[trigger] group[i]).path,
    ) by {
        assert(names[i] == group[i].path);
        assert(names.contains(group[i].path));
    }
    assert forall|p: Seq<Step>| #[trigger]
        after.contains(p) && !v.selected().contains(p) implies exists|i: int|
        0 <= i < group.len() && (#[trigger] group[i]).path == p by {
        assert(names.contains(p));
        let i = choose|i: int| 0 <= i < names.len() && names[i] == p;
        assert(group[i].path == p);
    }
}

/// The set with a path taken out where it is in it, and else put in.
spec fn flip_in(set: Set<Seq<Step>>, p: Seq<Step>) -> Set<Seq<Step>> {
    if set.contains(p) {
        set.remove(p)
    } else {
        set.insert(p)
    }
}

/// The set with each path of a sequence flipped in turn.
spec fn flips_in(set: Set<Seq<Step>>, paths: Seq<Seq<Step>>) -> Set<Seq<Step>>
    decreases paths.len(),
{
    if paths.len() == 0 {
        set
    } else {
        flip_in(flips_in(set, paths.drop_last()), paths.last())
    }
}

/// However paths are written, flipping them flips them in the set of paths.
proof fn lemma_flips_by_path(m: Map<Seq<Step>, Seq<u8>>, paths: Seq<PathView>)
    ensures
        flipped_all(m, paths).dom() == flips_in(m.dom(), steps_of(paths)),
    decreases paths.len(),
{
    if paths.len() > 0 {
        let front = paths.drop_last();
        lemma_flips_by_path(m, front);
        assert(steps_of(paths).drop_last() =~= steps_of(front));
        assert(flipped_all(m, paths).dom() =~= flip_in(
            flipped_all(m, front).dom(),
            paths.last().steps,
        ));
    }
}

proof fn lemma_flips_commute(set: Set<Seq<Step>>, p: Seq<Step>, paths: Seq<Seq<Step>>)
    ensures
        flips_in(flip_in(set, p), paths) == flip_in(flips_in(set, paths), p),
    decreases paths.len(),
{
    if paths.len() > 0 {
        lemma_flips_commute(set, p, paths.drop_last());
        let q = paths.last();
        let s = flips_in(set, paths.drop_last());
        assert(flip_in(flip_in(s, p), q) =~= flip_in(flip_in(s, q), p));
    }
}

proof fn lemma_flips_undo(set: Set<Seq<Step>>, paths: Seq<Seq<Step>>)
    ensures
        flips_in(flips_in(set, paths), paths) == set,
    decreases paths.len(),
{
    if paths.len() > 0 {
        let front = paths.drop_last();
        let p = paths.last();
        let s = flips_in(set, front);
        lemma_flips_commute(s, p, front);
        lemma_flips_undo(set, front);
        assert(flip_in(flip_in(set, p), p) =~= set);
    }
}

/// Inverting the selection twice restores it: the same paths are selected, and nothing else has
/// changed. A path that is selected anew is written as in its group.
pub proof fn inverting_twice_restores(v: AppView)
    ensures
        inverted(inverted(v)).selected() == v.selected(),
        inverted(inverted(v)) == (AppView {
            selected_for_delete: inverted(inverted(v)).selected_for_delete,
            ..v
        }),
{
    let once = inverted(v);
    let paths = inverted_paths(v);
    assert(current_rows(once) == current_rows(v));
    assert(current_node(once) == current_node(v));
    assert(chosen_file(once) == chosen_file(v));
    lemma_flips_by_path(v.selected_for_delete, paths);
    lemma_flips_by_path(once.selected_for_delete, paths);
    lemma_flips_undo(v.selected(), steps_of(paths));
}

/// The files whose selection is inverted: those of the group of the highlighted file, or those of
/// the directory that is meant in the tree.
pub open spec fn inverted_paths(v: AppView) -> Seq<PathView> {
    if v.focus_right {
        match chosen_file(v) {
            Some((f, g)) => paths_of(v.groups[g as int]),
            None => seq![],
        }
    } else {
        match current_node(v) {
            Some(node) => files_of_dir(current_rows(v), meant_dir(node)),
            None => seq![],
        }
    }
}

proof fn lemma_flips_each(set: Set<Seq<Step>>, paths: Seq<Seq<Step>>, p: Seq<Step>)
    requires
        paths.no_duplicates(),
    ensures
        flips_in(set, paths).contains(p) == (set.contains(p) != paths.contains(p)),
    decreases paths.len(),
{
    if paths.len() > 0 {
        let front = paths.drop_last();
        let last = paths.last();
        lemma_flips_each(set, front, p);
        assert(paths[paths.len() - 1] == last);
        if front.contains(p) {
            let i = choose|i: int| 0 <= i < front.len() && front[i] == p;
            assert(paths[i] == p);
            assert(p != last);
        } else if paths.contains(p) {
            let i = choose|i: int| 0 <= i < paths.len() && paths[i] == p;
            if i < front.len() {
                assert(front[i] == p);
            }
        }
    }
}

/// Inverting the selection flips each file that is meant, and no other: it is selected afterwards
/// if and only if it was not. The paths in a group have to differ; those of a directory do.
pub proof fn inverting_flips_each_file(v: AppView, p: Seq<Step>)
    requires
        app_inv(v),
        v.focus_right ==> steps_of(inverted_paths(v)).no_duplicates(),
    ensures
        inverted(v).selected().contains(p) == (v.selected().contains(p) != steps_of(
            inverted_paths(v),
        ).contains(p)),
{
    let names = steps_of(inverted_paths(v));
    if !v.focus_right {
        if let Some(node) = current_node(v) {
            let all = current_rows(v);
            let dir = meant_dir(node);
            let meant = |r: (nat, NodeView)| !r.1.is_dir && path_parent(r.1.path) == Some(dir);
            let path = |r: (nat, NodeView)| r.1.path;
            no_file_is_displayed_twice(v.tree, v.tree.path, v.sort_mode);
            assert forall|i: int, j: int|
                0 <= i < j < all.len() && meant(#[trigger] all[i]) && meant(
                    #[trigger] all[j],
                ) implies path(all[i]) != path(all[j]) by {}
            lemma_filter_distinct(all, meant, path);
            assert(names =~= all.filter(meant).map_values(path));
        }
    }
    lemma_flips_by_path(v.selected_for_delete, inverted_paths(v));
    lemma_flips_each(v.selected(), names, p);
}

// ---------------------------------------------------------------------------
// Moving
// ---------------------------------------------------------------------------

/// Moving down in the tree highlights a row that is there.
pub proof fn moving_down_stays_in_the_tree(v: AppView, n: int)
    requires
        !v.focus_right,
        0 < current_rows(v).len() <= usize::MAX,
        n >= 0,
    ensures
        moved_down(v, n).left is Some,
        moved_down(v, n).left->0 < current_rows(v).len(),
        current_rows(moved_down(v, n)) == current_rows(v),
        current_node(moved_down(v, n)) is Some,
{
}

/// Moving up in the tree highlights a row that is there, where one was.
pub proof fn moving_up_stays_in_the_tree(v: AppView, n: int)
    requires
        !v.focus_right,
        current_node(v) is Some,
        n >= 0,
    ensures
        current_node(moved_up(v, n)) is Some,
        moved_up(v, n).left->0 <= v.left->0,
{
}

proof fn lemma_row_of_is_there(rows: Seq<(nat, NodeView)>, path: Seq<Step>)
    requires
        rows.len() <= usize::MAX,
        row_of(rows, path) is Some,
    ensures
        row_of(rows, path)->0 < rows.len(),
        rows[row_of(rows, path)->0 as int].1.path == path,
    decreases rows.len(),
{
    if rows.len() > 0 {
        if row_of(rows.drop_last(), path) is Some {
            lemma_row_of_is_there(rows.drop_last(), path);
        }
    }
}

/// Going to a copy that is displayed highlights it in the tree, which gets the focus.
pub proof fn going_to_a_copy_shows_it(v: AppView, path: Seq<Step>)
    requires
        v.focus_right,
        target(v) matches Some(t) && t.steps == path,
        row_of(current_rows(v), path) is Some,
        current_rows(v).len() <= usize::MAX,
    ensures
        !shown_in_tree(v).focus_right,
        current_node(shown_in_tree(v)) is Some,
        (current_node(shown_in_tree(v))->0).path == path,
{
    lemma_row_of_is_there(current_rows(v), path);
    assert(current_rows(shown_in_tree(v)) == current_rows(v));
}

proof fn lemma_row_of_is_some(rows: Seq<(nat, NodeView)>, path: Seq<Step>, i: int)
    requires
        0 <= i < rows.len(),
        rows[i].1.path == path,
    ensures
        row_of(rows, path) is Some,
    decreases rows.len(),
{
    if i < rows.len() - 1 {
        lemma_row_of_is_some(rows.drop_last(), path, i);
    }
}

/// Going to a copy that lies directly in a displayed but collapsed directory expands that and
/// highlights the copy in the tree, which gets the focus. The steps of `way` lead to the directory,
/// and `last` leads on to the copy; no other directory on the way has the same path.
pub proof fn going_to_a_hidden_copy_shows_it(
    v: AppView,
    path: Seq<Step>,
    dir: Seq<Step>,
    way: Seq<Step>,
    last: Step,
)
    requires
        v.focus_right,
        target(v) matches Some(t) && t.steps == path,
        path_parent(path) == Some(dir),
        row_of(current_rows(v), path) is None,
        well_formed(v.tree),
        well_placed(v.tree, seq![], v.tree.path),
        way.len() > 0,
        way_is_open(v.tree, way),
        lookup(v.tree, way) matches Some(d) && d.path == dir && d.is_dir && !d.expanded,
        lookup(v.tree, way.push(last)) matches Some(copy) && copy.path == path,
        passes_by(v.tree, way, dir),
        rows(toggled(v.tree, dir), v.sort_mode).len() <= usize::MAX,
    ensures
        !shown_in_tree(v).focus_right,
        shown_in_tree(v).tree == toggled(v.tree, dir),
        current_node(shown_in_tree(v)) is Some,
        (current_node(shown_in_tree(v))->0).path == path,
{
    let before = current_rows(v);
    let d = lookup(v.tree, way)->0;
    open_ways_are_displayed(v.tree, way, v.sort_mode);
    let i = choose|i: int| 0 <= i < before.len() && before[i] == ((way.len() - 1) as nat, d);
    lemma_row_of_is_some(before, dir, i);
    let open = AppView { tree: toggled(v.tree, dir), ..v };
    let after = current_rows(open);
    let all = way.push(last);
    let copy = lookup(v.tree, all)->0;
    toggling_keeps_places(v.tree, dir, seq![], v.tree.path);
    toggling_opens_the_way(v.tree, way, last, dir);
    open_ways_are_displayed(open.tree, all, v.sort_mode);
    let j = choose|j: int| 0 <= j < after.len() && after[j] == ((all.len() - 1) as nat, copy);
    lemma_row_of_is_some(after, path, j);
    lemma_row_of_is_there(after, path);
    assert(current_rows(shown_in_tree(v)) == after);
}

// ---------------------------------------------------------------------------
// Deleting
// ---------------------------------------------------------------------------

/// The files of a deletion that is under way are selected.
pub open spec fn deletes_what_is_selected(v: AppView) -> bool {
    match v.dialog {
        DialogView::Deleting { job, .. } => is_deletion_of(job, v.selected()),
        DialogView::DeleteError { job, .. } => job.current < job.items.len() && is_deletion_of(
            job,
            v.selected(),
        ),
        _ => true,
    }
}

/// The files of a deletion are in a set of paths.
pub open spec fn is_deletion_of(job: DeletionView, set: Set<Seq<Step>>) -> bool {
    &&& 0 <= job.current
    &&& forall|i: int| 0 <= i < job.items.len() ==> set.contains((#[trigger] job.items[i]).0.steps)
}

proof fn lemma_deletion_keeps_files(job: DeletionView, set: Set<Seq<Step>>)
    requires
        is_deletion_of(job, set),
    ensures
        is_deletion_of(given_up(job), set),
        job.current < job.items.len() ==> is_deletion_of(passed_over(job), set),
        forall|s: StatusView|
            job.current < job.items.len() ==> is_deletion_of(
                #[trigger] with_status(job, s),
                set,
            ),
{
    assert forall|i: int| 0 <= i < given_up(job).items.len() implies set.contains(
        (#[trigger] given_up(job).items[i]).0.steps,
    ) by {
        assert(set.contains(job.items[i].0.steps));
    }
    if job.current < job.items.len() {
        assert forall|s: StatusView, i: int| 0 <= i < job.items.len() implies set.contains(
            (#[trigger] with_status(job, s).items[i]).0.steps,
        ) by {
            assert(set.contains(job.items[i].0.steps));
        }
        assert(passed_over(job) == with_status(job, StatusView::Failed("Skipped"@)));
    }
}

/// The deletion with the current file dealt with.
pub open spec fn with_status(job: DeletionView, status: StatusView) -> DeletionView {
    DeletionView {
        items: job.items.update(job.current, (job.items[job.current].0, status)),
        current: job.current + 1,
        ..job
    }
}

/// A deletion is of all that is selected, and of nothing else.
pub proof fn deletion_is_of_the_selection(v: AppView, permanent: bool)
    requires
        v.selected().finite(),
    ensures
        deletes_what_is_selected(delete_begun(v, permanent, None)),
        forall|p: Seq<Step>|
            v.selected().contains(p) ==> pending(v.selected_for_delete).contains(
                #[trigger] unfinished(v, p),
            ),
{
    let set = v.selected();
    let items = pending(v.selected_for_delete);
    listing_exists(set);
    assert forall|i: int| 0 <= i < items.len() implies set.contains(
        (#[trigger] items[i]).0.steps,
    ) by {
        assert(listing(set).contains(listing(set)[i]));
    }
    assert forall|p: Seq<Step>| set.contains(p) implies items.contains(
        #[trigger] unfinished(v, p),
    ) by {
        assert(listing(set).contains(p));
        let k = choose|k: int| 0 <= k < listing(set).len() && listing(set)[k] == p;
        assert(items[k] == unfinished(v, p));
    }
}

/// A selected path that is still to be deleted.
pub open spec fn unfinished(v: AppView, p: Seq<Step>) -> (PathView, StatusView) {
    (PathView { steps: p, written: v.selected_for_delete[p] }, StatusView::Pending)
}

/// Whatever is pressed, the files of a deletion stay selected.
pub proof fn keys_delete_only_the_selection(v: AppView, key: KeyPress)
    requires
        deletes_what_is_selected(v),
        v.selected().finite(),
    ensures
        deletes_what_is_selected(pressed(v, key).0),
{
    let set = v.selected();
    let after = pressed(v, key).0;
    match v.dialog {
        DialogView::ConfirmDelete { .. } => {
            deletion_is_of_the_selection(v, true);
        },
        DialogView::Deleting { job, .. } => {
            lemma_deletion_keeps_files(job, set);
            assert(after.selected() == set);
        },
        DialogView::DeleteError { job, .. } => {
            lemma_deletion_keeps_files(job, set);
            assert(after.selected() == set);
        },
        _ => {
            assert(!(after.dialog is Deleting) && !(after.dialog is DeleteError));
        },
    }
}

/// Nothing is ever deleted that is not selected: the file that comes next is selected, and the
/// files of a deletion stay so whatever becomes of that one, until it is over.
pub proof fn only_the_selection_is_deleted(v: AppView, error: Seq<char>)
    requires
        deletes_what_is_selected(v),
    ensures
        deletes_what_is_selected(delete_looked(v)),
        deletes_what_is_selected(delete_failed(v, error)),
        deletes_what_is_selected(delete_succeeded(v)),
        deletes_what_is_selected(delete_finished(v)),
        next_job(v) matches Some(JobView::Remove { path }) ==> v.selected().contains(path.steps),
        next_job(v) matches Some(JobView::Move { path, .. }) ==> v.selected().contains(path.steps),
{
    let set = v.selected();
    if let DialogView::Deleting { job, .. } = v.dialog {
        lemma_deletion_keeps_files(job, set);
        assert(job.current < job.items.len() ==> is_deletion_of(
            with_status(job, StatusView::Done),
            set,
        ));
    }
}

/// Giving up or passing over a file marks nothing as deleted that was not.
pub proof fn giving_up_deletes_nothing(job: DeletionView, i: int)
    requires
        0 <= i < job.items.len(),
        0 <= job.current,
    ensures
        given_up(job).items[i].1 == StatusView::Done ==> job.items[i].1 == StatusView::Done,
        given_up(job).items[i].0 == job.items[i].0,
        job.current < job.items.len() ==> passed_over(job).items[i].1 == StatusView::Done
            ==> job.items[i].1 == StatusView::Done,
        given_up(job).current == job.items.len(),
{
}

/// A file that is moved keeps its place below the root, below the trash directory.
pub proof fn trash_keeps_places(v: AppView, path: PathView, rel: Seq<Step>)
    requires
        path_strip(path.steps, v.root.steps) == Some(rel),
        rel.len() > 0,
        rel[0] is Normal || rel[0] is ParentDir,
        next_item(v) == Some(path),
        !is_permanent(v),
    ensures
        next_job(v) is Some,
        (next_job(v)->0) is Move,
        ((next_job(v)->0)->dest).steps == trash_of(v.root).steps + rel,
{
}

/// After a deletion no group holds a deleted file, and every group holds two files or more.
pub proof fn deleted_files_are_gone(groups: Seq<Seq<FileView>>, deleted: Set<Seq<Step>>, g: int)
    requires
        0 <= g < without(groups, deleted).len(),
    ensures
        without(groups, deleted)[g].len() > 1,
        forall|i: int|
            0 <= i < without(groups, deleted)[g].len() ==> !deleted.contains(
                (#[trigger] without(groups, deleted)[g][i]).path,
            ),
{
    let less = groups.map_values(left_over(deleted));
    less.lemma_filter_pred(has_several(), g);
    lemma_filter_part(less, has_several(), g);
    let group = without(groups, deleted)[g];
    let k = choose|k: int| 0 <= k < less.len() && less[k] == group;
    let p = |f: FileView| !deleted.contains(f.path);
    assert(group == groups[k].filter(p));
    assert forall|i: int| 0 <= i < group.len() implies !deleted.contains(
        (#[trigger] group[i]).path,
    ) by {
        groups[k].lemma_filter_pred(p, i);
    }
}

/// A file that was not deleted is still there, where its group has another such file.
pub proof fn other_files_stay(
    groups: Seq<Seq<FileView>>,
    deleted: Set<Seq<Step>>,
    g: int,
    i: int,
)
    requires
        0 <= g < groups.len(),
        0 <= i < groups[g].len(),
        !deleted.contains(groups[g][i].path),
        left_over(deleted)(groups[g]).len() > 1,
    ensures
        exists|h: int|
            0 <= h < without(groups, deleted).len() && (#[trigger] without(
                groups,
                deleted,
            )[h]).contains(groups[g][i]),
{
    let less = groups.map_values(left_over(deleted));
    let p = |f: FileView| !deleted.contains(f.path);
    groups[g].lemma_filter_contains(p, i);
    assert(less[g].contains(groups[g][i]));
    less.lemma_filter_contains(has_several(), g);
    let h = choose|h: int|
        0 <= h < without(groups, deleted).len() && without(groups, deleted)[h] == less[g];
    assert(without(groups, deleted)[h].contains(groups[g][i]));
}

} // verus!
