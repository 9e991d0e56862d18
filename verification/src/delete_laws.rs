//! What a deletion does to the groups, and what becomes of each file of it.
use vstd::prelude::*;

use crate::app::{AppView, DeleteErrorButton, DeletionView, DialogView, StatusView};
use crate::cache::has_several;
use crate::deletion::{
    delete_begun, delete_failed, delete_finished, delete_is_over, delete_looked, delete_succeeded,
    deleted_paths, left_over, next_item, next_job, pending, JobView,
};
use crate::keys::{pressed, KeyPress};
use crate::order::lex;
use crate::path::{
    full_join, full_join_text, full_parent, full_strip, lemma_path_order, path_before, step_lt,
    PathView, Step,
};
use crate::path_set::{listing, listing_exists};
use crate::record::FileView;
use crate::sequence::{ascend_below, lemma_filter_places};
use crate::text::decimal;

verus! {

// ---------------------------------------------------------------------------
// What closing a deletion takes out of the groups
// ---------------------------------------------------------------------------

/// A deletion has marked the file at that path as deleted.
pub open spec fn was_deleted(job: DeletionView, path: Seq<Step>) -> bool {
    exists|m: int|
        0 <= m < job.items.len() && (#[trigger] job.items[m]).0.steps == path && job.items[m].1
            == StatusView::Done
}

/// `rest` holds the files of a group that were not deleted, all of them, at the positions in `at`.
pub open spec fn is_rest_of(
    at: Seq<int>,
    group: Seq<FileView>,
    rest: Seq<FileView>,
    job: DeletionView,
) -> bool {
    &&& ascend_below(at, group.len() as int)
    &&& rest.len() == at.len()
    &&& forall|k: int|
        0 <= k < at.len() ==> rest[k] == group[#[trigger] at[k]] && !was_deleted(
            job,
            rest[k].path,
        )
    &&& forall|i: int|
        0 <= i < group.len() && !was_deleted(job, (#[trigger] group[i]).path) ==> at.contains(i)
}

/// `rests` holds what is left of the groups at the positions in `at`: those of which two files or
/// more were not deleted.
pub open spec fn are_the_rests(
    at: Seq<int>,
    groups: Seq<Seq<FileView>>,
    rests: Seq<Seq<FileView>>,
    job: DeletionView,
) -> bool {
    &&& ascend_below(at, groups.len() as int)
    &&& rests.len() == at.len()
    &&& forall|h: int|
        0 <= h < at.len() ==> (#[trigger] rests[h]).len() >= 2 && exists|ks: Seq<int>| #[trigger]
            is_rest_of(ks, groups[at[h]], rests[h], job)
    &&& forall|g: int, i: int, j: int|
        0 <= g < groups.len() && 0 <= i < j < groups[g].len() && !was_deleted(
            job,
            (#[trigger] groups[g][i]).path,
        ) && !was_deleted(job, (#[trigger] groups[g][j]).path) ==> at.contains(g)
}

proof fn lemma_deleted_paths(job: DeletionView, path: Seq<Step>)
    ensures
        deleted_paths(job.items).contains(path) == was_deleted(job, path),
{
    let done = |i: (PathView, StatusView)| i.1 == StatusView::Done;
    let steps = |i: (PathView, StatusView)| i.0.steps;
    let at = lemma_filter_places(job.items, done);
    let kept = job.items.filter(done);
    let paths = kept.map_values(steps);
    if paths.contains(path) {
        let k = choose|k: int| 0 <= k < paths.len() && paths[k] == path;
        assert(kept[k] == job.items[at[k]]);
        assert(job.items[at[k]].0.steps == path);
    }
    if was_deleted(job, path) {
        let m = choose|m: int|
            0 <= m < job.items.len() && (#[trigger] job.items[m]).0.steps == path && job.items[m].1
                == StatusView::Done;
        assert(done(job.items[m]));
        let k = choose|k: int| 0 <= k < at.len() && at[k] == m;
        assert(paths[k] == path);
    }
}

/// Closing a deletion takes exactly the files out of the groups that were marked as deleted. A file
/// that is not so marked, be it pending, failed, skipped or never selected, stays in its group
/// wherever another file of the group does; every group that is left has two files or more, in the
/// order that they had.
pub proof fn only_deleted_files_leave(v: AppView, job: DeletionView, scroll: Option<usize>)
    requires
        v.dialog == (DialogView::Deleting { job, scroll }),
    ensures
        ({
            let after = delete_finished(v).groups;
            &&& exists|at: Seq<int>| #[trigger] are_the_rests(at, v.groups, after, job)
            &&& forall|g: int, i: int, j: int|
                0 <= g < v.groups.len() && 0 <= i < v.groups[g].len() && 0 <= j < v.groups[g].len()
                    && i != j && !was_deleted(job, (#[trigger] v.groups[g][i]).path)
                    && !was_deleted(job, (#[trigger] v.groups[g][j]).path) ==> exists|h: int|
                    0 <= h < after.len() && (#[trigger] after[h]).contains(v.groups[g][i])
            &&& forall|h: int, k: int|
                0 <= h < after.len() && 0 <= k < after[h].len() ==> !was_deleted(
                    job,
                    (#[trigger] after[h][k]).path,
                )
        }),
{
    let after = delete_finished(v).groups;
    let deleted = deleted_paths(job.items);
    let less = v.groups.map_values(left_over(deleted));
    let stays = |f: FileView| !deleted.contains(f.path);
    let at = lemma_filter_places(less, has_several());
    assert(after == less.filter(has_several()));
    assert forall|path: Seq<Step>| #[trigger] deleted.contains(path) == was_deleted(job, path) by {
        lemma_deleted_paths(job, path);
    }
    assert forall|h: int| 0 <= h < at.len() implies (#[trigger] after[h]).len() >= 2 && exists|
        ks: Seq<int>,
    | #[trigger] is_rest_of(ks, v.groups[at[h]], after[h], job) by {
        let group = v.groups[at[h]];
        assert(after[h] == less[at[h]]);
        assert(after[h] == group.filter(stays));
        let ks = lemma_filter_places(group, stays);
        assert forall|k: int| 0 <= k < ks.len() implies after[h][k] == group[#[trigger] ks[k]]
            && !was_deleted(job, after[h][k].path) by {
            assert(stays(group[ks[k]]));
            assert(!deleted.contains(group[ks[k]].path));
        }
        assert forall|i: int|
            0 <= i < group.len() && !was_deleted(job, (#[trigger] group[i]).path) implies
            ks.contains(i) by {
            assert(!deleted.contains(group[i].path));
            assert(stays(group[i]));
        }
        assert(is_rest_of(ks, group, after[h], job));
    }
    assert forall|g: int, i: int, j: int|
        0 <= g < v.groups.len() && 0 <= i < j < v.groups[g].len() && !was_deleted(
            job,
            (#[trigger] v.groups[g][i]).path,
        ) && !was_deleted(job, (#[trigger] v.groups[g][j]).path) implies at.contains(g) by {
        let group = v.groups[g];
        assert(!deleted.contains(group[i].path) && !deleted.contains(group[j].path));
        assert(stays(group[i]) && stays(group[j]));
        let ks = lemma_filter_places(group, stays);
        let a = choose|a: int| 0 <= a < ks.len() && ks[a] == i;
        let b = choose|b: int| 0 <= b < ks.len() && ks[b] == j;
        assert(less[g] == group.filter(stays));
        assert(less[g].len() > 1);
        assert(has_several()(less[g]));
    }
    assert(are_the_rests(at, v.groups, after, job));
    assert forall|g: int, i: int, j: int|
        0 <= g < v.groups.len() && 0 <= i < v.groups[g].len() && 0 <= j < v.groups[g].len() && i
            != j && !was_deleted(job, (#[trigger] v.groups[g][i]).path) && !was_deleted(
            job,
            (#[trigger] v.groups[g][j]).path,
        ) implies exists|h: int|
        0 <= h < after.len() && (#[trigger] after[h]).contains(v.groups[g][i]) by {
        if i < j {
            assert(at.contains(g));
        } else {
            assert(!was_deleted(job, v.groups[g][j].path));
            assert(at.contains(g));
        }
        let h = choose|h: int| 0 <= h < at.len() && at[h] == g;
        let ks = choose|ks: Seq<int>| #[trigger] is_rest_of(ks, v.groups[at[h]], after[h], job);
        let k = choose|k: int| 0 <= k < ks.len() && ks[k] == i;
        assert(after[h][k] == v.groups[g][i]);
        assert(after[h].contains(v.groups[g][i]));
    }
    assert forall|h: int, k: int| 0 <= h < after.len() && 0 <= k < after[h].len() implies
        !was_deleted(job, (#[trigger] after[h][k]).path) by {
        let ks = choose|ks: Seq<int>| #[trigger] is_rest_of(ks, v.groups[at[h]], after[h], job);
        assert(after[h][k] == v.groups[at[h]][ks[k]]);
    }
}

/// Once a deletion is closed, nothing is selected, no dialog is open, and the number of files is
/// told that were marked as deleted, each path once. The filter, the root and the sort mode stay.
pub proof fn closing_tells_how_many_were_deleted(
    v: AppView,
    job: DeletionView,
    scroll: Option<usize>,
    deleted: Set<Seq<Step>>,
)
    requires
        v.dialog == (DialogView::Deleting { job, scroll }),
        forall|p: Seq<Step>| #[trigger] deleted.contains(p) <==> was_deleted(job, p),
    ensures
        ({
            let after = delete_finished(v);
            &&& after.notification == Some("Deleted "@ + decimal(deleted.len()) + " file(s)"@)
            &&& after.selected() == Set::<Seq<Step>>::empty()
            &&& after.dialog is Closed
            &&& after.filter == v.filter && after.filtering == v.filtering
            &&& after.root == v.root && after.sort_mode == v.sort_mode
            &&& after.read_only == v.read_only && after.show_preview == v.show_preview
        }),
{
    assert forall|p: Seq<Step>| deleted.contains(p) <==> deleted_paths(job.items).contains(p) by {
        lemma_deleted_paths(job, p);
    }
    assert(deleted =~= deleted_paths(job.items));
}

/// A deletion is over if and only if no file of it is left to be dealt with, and only then is it
/// closed by itself.
pub proof fn deletions_end_with_the_last_file(v: AppView)
    ensures
        delete_is_over(v) <==> (v.dialog matches DialogView::Deleting { job, .. } && job.current
            >= job.items.len()),
        delete_is_over(v) ==> next_item(v) is None,
{
}

// ---------------------------------------------------------------------------
// What becomes of each file
// ---------------------------------------------------------------------------

/// A deletion begins with all selected paths, each once and in ascending order, none of them dealt
/// with yet, for good or not as was asked for; nothing else changes.
pub proof fn deletions_begin_with_the_selection(v: AppView, permanent: bool)
    requires
        v.selected().finite(),
    ensures
        delete_begun(v, permanent, None).dialog matches DialogView::Deleting { job, scroll } && {
            &&& job.current == 0
            &&& job.permanent == permanent
            &&& scroll == Some(0usize)
            &&& job.items.len() == v.selected().len()
            &&& forall|i: int|
                0 <= i < job.items.len() ==> v.selected().contains(
                    (#[trigger] job.items[i]).0.steps,
                ) && job.items[i].0.written == v.selected_for_delete[job.items[i].0.steps]
                    && job.items[i].1 == StatusView::Pending
            &&& forall|i: int, j: int|
                0 <= i < j < job.items.len() ==> path_before(
                    (#[trigger] job.items[i]).0.steps,
                    (#[trigger] job.items[j]).0.steps,
                )
            &&& forall|p: Seq<Step>|
                v.selected().contains(p) ==> exists|i: int|
                    0 <= i < job.items.len() && (#[trigger] job.items[i]).0.steps == p
        },
        delete_begun(v, permanent, None) == (AppView {
            dialog: delete_begun(v, permanent, None).dialog,
            ..v
        }),
{
    let set = v.selected();
    let names = listing(set);
    let items = pending(v.selected_for_delete);
    listing_exists(set);
    lemma_path_order();
    let before = lex(step_lt());
    assert forall|i: int| 0 <= i < items.len() implies (#[trigger] items[i]).0.steps == names[i]
        && set.contains(names[i]) by {
        assert(names.contains(names[i]));
    }
    assert forall|i: int, j: int| 0 <= i < names.len() && 0 <= j < names.len() && i != j implies
        names[i] != names[j] by {
        if i < j {
            assert(before(names[i], names[j]));
        } else {
            assert(before(names[j], names[i]));
        }
    }
    assert(names.no_duplicates());
    names.unique_seq_to_set();
    assert(names.to_set() =~= set);
    assert forall|i: int, j: int| 0 <= i < j < items.len() implies path_before(
        (#[trigger] items[i]).0.steps,
        (#[trigger] items[j]).0.steps,
    ) by {
        assert(path_before(names[i], names[j]));
    }
    assert forall|p: Seq<Step>| set.contains(p) implies exists|i: int|
        0 <= i < items.len() && (#[trigger] items[i]).0.steps == p by {
        assert(names.contains(p));
        let i = choose|i: int| 0 <= i < names.len() && names[i] == p;
        assert(items[i].0.steps == p);
    }
}

/// Where the trash directory cannot be made, nothing is deleted and that is said; where files are
/// deleted for good it is not needed.
pub proof fn no_trash_no_deletion(v: AppView, trouble: Seq<char>)
    ensures
        delete_begun(v, false, Some(trouble)) == (AppView {
            dialog: DialogView::Error(seq!["Cannot create trash dir: "@ + trouble]),
            ..v
        }),
        delete_begun(v, true, Some(trouble)) == delete_begun(v, true, None),
{
}

/// The file at hand is the one of the item that comes next. For good it is removed at its own path;
/// else it is moved to where it lies below the root, below the trash directory; where it does not
/// lie below the root, it has failed.
pub proof fn the_next_file_is_dealt_with(v: AppView, job: DeletionView, scroll: Option<usize>)
    requires
        v.dialog == (DialogView::Deleting { job, scroll }),
        0 <= job.current < job.items.len(),
    ensures
        ({
            let path = job.items[job.current].0;
            let below = v.root.steps.len() <= path.steps.len() && path.steps.take(
                v.root.steps.len() as int,
            ) == v.root.steps;
            &&& job.permanent ==> next_job(v) == Some(JobView::Remove { path })
            &&& !job.permanent && below ==> (next_job(v) matches Some(
                JobView::Move { path: from, dest, dest_dir },
            ) && from == path && dest == full_join(
                full_join_text(v.root, ".dupfinder_trash"@),
                full_strip(path, v.root.steps)->0,
            ) && dest_dir == full_parent(dest))
            &&& !job.permanent && !below ==> next_job(v) is None && delete_looked(v).dialog == (
            DialogView::DeleteError {
                job,
                error: "not under root"@,
                choice: DeleteErrorButton::Retry,
            })
            &&& next_job(v) is Some ==> delete_looked(v) == v
        }),
{
}

/// Where the file at hand was deleted, it alone is marked so and the next one is at hand. Where it
/// was not, no mark changes and it is asked what to do. Neither changes anything but the dialog.
pub proof fn one_file_is_marked(
    v: AppView,
    job: DeletionView,
    scroll: Option<usize>,
    error: Seq<char>,
)
    requires
        v.dialog == (DialogView::Deleting { job, scroll }),
        0 <= job.current < job.items.len() <= usize::MAX,
    ensures
        delete_succeeded(v).dialog matches DialogView::Deleting { job: next, scroll: row } && {
            &&& next.current == job.current + 1
            &&& next.permanent == job.permanent
            &&& next.items.len() == job.items.len()
            &&& next.items[job.current] == (job.items[job.current].0, StatusView::Done)
            &&& forall|i: int|
                0 <= i < job.items.len() && i != job.current ==> #[trigger] next.items[i]
                    == job.items[i]
            &&& row matches Some(n) && n < job.items.len() && (n == next.current || (n + 1
                == job.items.len() && next.current == job.items.len()))
        },
        delete_succeeded(v) == (AppView { dialog: delete_succeeded(v).dialog, ..v }),
        delete_failed(v, error) == (AppView {
            dialog: DialogView::DeleteError { job, error, choice: DeleteErrorButton::Retry },
            ..v
        }),
{
}

/// What is asked about a file that could not be deleted. Trying again goes back to the same file
/// with the same marks; skipping marks that file as failed and goes on with the next; cancelling,
/// by its button or by Escape, skips that file and all that follow. No file is ever marked as
/// deleted by a key, and nothing but the dialog changes.
pub proof fn failures_are_answered(
    v: AppView,
    job: DeletionView,
    error: Seq<char>,
    choice: DeleteErrorButton,
)
    requires
        v.dialog == (DialogView::DeleteError { job, error, choice }),
        0 <= job.current < job.items.len() <= usize::MAX,
        !v.filtering,
    ensures
        choice == DeleteErrorButton::Retry ==> pressed(v, KeyPress::Enter).0.dialog == (
        DialogView::Deleting { job, scroll: Some(job.current as usize) }),
        choice == DeleteErrorButton::Skip ==> (pressed(v, KeyPress::Enter).0.dialog matches
            DialogView::Deleting { job: next, .. } && {
            &&& next.current == job.current + 1
            &&& next.permanent == job.permanent
            &&& next.items.len() == job.items.len()
            &&& next.items[job.current].0 == job.items[job.current].0
            &&& next.items[job.current].1 is Failed
            &&& forall|i: int|
                0 <= i < job.items.len() && i != job.current ==> #[trigger] next.items[i]
                    == job.items[i]
        }),
        forall|key: KeyPress|
            key == KeyPress::Esc || (key == KeyPress::Enter && choice == DeleteErrorButton::Cancel)
                ==> ((#[trigger] pressed(v, key)).0.dialog matches DialogView::Deleting {
                job: next,
                ..
            } && stopped_at(job, next)),
        forall|key: KeyPress|
            (#[trigger] pressed(v, key)).1 is Nothing && pressed(v, key).0 == (AppView {
                dialog: pressed(v, key).0.dialog,
                ..v
            }),
{
}

/// All files from the one at hand on are skipped; those before it keep their marks.
pub open spec fn stopped_at(job: DeletionView, next: DeletionView) -> bool {
    &&& next.items.len() == job.items.len()
    &&& next.current == job.items.len()
    &&& next.permanent == job.permanent
    &&& forall|i: int|
        0 <= i < job.items.len() ==> (#[trigger] next.items[i]).0 == job.items[i].0
            && next.items[i].1 == if i < job.current {
            job.items[i].1
        } else {
            StatusView::Skipped
        }
}

/// While files are deleted, Escape skips all that are left, and no other key does anything.
pub proof fn deletions_are_stopped_by_escape(
    v: AppView,
    job: DeletionView,
    scroll: Option<usize>,
    key: KeyPress,
)
    requires
        v.dialog == (DialogView::Deleting { job, scroll }),
        !v.filtering,
    ensures
        key == KeyPress::Esc ==> (pressed(v, key).0.dialog matches DialogView::Deleting {
            job: next,
            scroll: row,
        } && row == scroll && stopped_at(job, next)),
        key != KeyPress::Esc ==> pressed(v, key).0 == v,
        pressed(v, key).0 == (AppView { dialog: pressed(v, key).0.dialog, ..v }),
        pressed(v, key).1 is Nothing,
{
}

} // verus!
