//! Deleting what is selected.
use vstd::prelude::*;

use crate::app::{
    items_view, text_view, texts_view, App, AppView, DeleteErrorButton, DeleteStatus, Deletion,
    DeletionView, DialogButton, DialogState, DialogView, StatusView,
};
use crate::cache::has_several;
use crate::groups::{file_total, filtering_leaves_no_more_files, none_empty};
use crate::outline::rebuilt;
use crate::path::{
    full_join, full_join_text, full_parent, full_path_view, full_strip, FilePath, PathView, Step,
};
use crate::path_set::{
    full_paths_view, lemma_with_more, listed, paths_view, putting_in_adds, steps_of, with_paths,
    PathSet,
};
use crate::record::{group_view, groups_view, DuplicateGroups, FileInfo, FileView};
use crate::selection::{insert_all, list_paths, paths_of, selecting};
use crate::sequence::{lemma_filter_ends, lemma_take_filter};
use crate::text::{decimal, push_decimal};

verus! {

/// The state once the delete dialog is opened, where anything is selected. The button that is
/// highlighted first deletes nothing.
pub open spec fn delete_asked(v: AppView) -> AppView {
    if v.selected() == Set::<Seq<Step>>::empty() {
        v
    } else {
        AppView {
            dialog: DialogView::ConfirmDelete { scroll: Some(0), button: DialogButton::Cancel },
            ..v
        }
    }
}

/// The paths of all files of the groups.
pub open spec fn all_paths(groups: Seq<Seq<FileView>>) -> Seq<PathView>
    decreases groups.len(),
{
    if groups.len() == 0 {
        seq![]
    } else {
        all_paths(groups.drop_last()) + paths_of(groups.last())
    }
}

/// The state once all files are selected and the delete dialog is opened.
pub open spec fn synced(v: AppView) -> AppView {
    delete_asked(selecting(v, with_paths(v.selected_for_delete, all_paths(v.groups))))
}

/// The directory into which files are moved.
pub open spec fn trash_of(root: PathView) -> PathView {
    full_join_text(root, ".dupfinder_trash"@)
}

/// The files of a selection, none of them deleted yet.
pub open spec fn pending(paths: Map<Seq<Step>, Seq<u8>>) -> Seq<(PathView, StatusView)> {
    listed(paths).map_values(|p: PathView| (p, StatusView::Pending))
}

/// The state once the deletion of what is selected has begun; where files are to be moved and
/// there is no directory for them, the state with that trouble shown.
pub open spec fn delete_begun(v: AppView, permanent: bool, trouble: Option<Seq<char>>) -> AppView {
    let dialog = match trouble {
        Some(e) if !permanent => DialogView::Error(seq!["Cannot create trash dir: "@ + e]),
        _ => DialogView::Deleting {
            job: DeletionView { items: pending(v.selected_for_delete), current: 0, permanent },
            scroll: Some(0),
        },
    };
    AppView { dialog, ..v }
}

/// What is to be done with a file.
#[derive(Debug)]
pub enum DeleteJob {
    /// Remove it.
    Remove { path: FilePath },
    /// Move it to `dest`, in a directory that is made first.
    Move { path: FilePath, dest: FilePath, dest_dir: Option<FilePath> },
}

/// What a `DeleteJob` stands for.
pub enum JobView {
    Remove { path: PathView },
    Move { path: PathView, dest: PathView, dest_dir: Option<PathView> },
}

impl View for DeleteJob {
    type V = JobView;

    open spec fn view(&self) -> JobView {
        match self {
            DeleteJob::Remove { path } => JobView::Remove { path: path.full() },
            DeleteJob::Move { path, dest, dest_dir } => JobView::Move {
                path: path.full(),
                dest: dest.full(),
                dest_dir: full_path_view(*dest_dir),
            },
        }
    }
}

/// What a job that there perhaps is stands for.
pub open spec fn job_view(job: Option<DeleteJob>) -> Option<JobView> {
    match job {
        Some(j) => Some(j@),
        None => None,
    }
}

/// The file that is to be deleted next.
pub open spec fn next_item(v: AppView) -> Option<PathView> {
    match v.dialog {
        DialogView::Deleting { job, .. } => if job.current < job.items.len() {
            Some(job.items[job.current].0)
        } else {
            None
        },
        _ => None,
    }
}

/// Whether files are deleted for good.
pub open spec fn is_permanent(v: AppView) -> bool {
    match v.dialog {
        DialogView::Deleting { job, .. } => job.permanent,
        _ => false,
    }
}

/// What is to be done with the next file. A file that does not lie below the root cannot be
/// moved.
pub open spec fn next_job(v: AppView) -> Option<JobView> {
    match next_item(v) {
        Some(path) => if is_permanent(v) {
            Some(JobView::Remove { path })
        } else {
            match full_strip(path, v.root.steps) {
                Some(rel) => {
                    let dest = full_join(trash_of(v.root), rel);
                    Some(JobView::Move { path, dest, dest_dir: full_parent(dest) })
                },
                None => None,
            }
        },
        None => None,
    }
}

/// The state once the next file could not be deleted.
pub open spec fn delete_failed(v: AppView, error: Seq<char>) -> AppView {
    match v.dialog {
        DialogView::Deleting { job, .. } => if job.current < job.items.len() {
            AppView {
                dialog: DialogView::DeleteError { job, error, choice: DeleteErrorButton::Retry },
                ..v
            }
        } else {
            v
        },
        _ => v,
    }
}

/// The last row of `len`, or the first where there is none, but none further down than `at`.
pub open spec fn no_further(at: int, len: int) -> usize {
    if at < len {
        at as usize
    } else if len > 0 {
        (len - 1) as usize
    } else {
        0
    }
}

/// The state once the next file was deleted.
pub open spec fn delete_succeeded(v: AppView) -> AppView {
    match v.dialog {
        DialogView::Deleting { job, .. } => if job.current < job.items.len() {
            let next = DeletionView {
                items: job.items.update(
                    job.current,
                    (job.items[job.current].0, StatusView::Done),
                ),
                current: job.current + 1,
                ..job
            };
            AppView {
                dialog: DialogView::Deleting {
                    job: next,
                    scroll: Some(no_further(job.current + 1, job.items.len() as int)),
                },
                ..v
            }
        } else {
            v
        },
        _ => v,
    }
}

/// The state once the next file was looked at: one that cannot be moved has failed.
pub open spec fn delete_looked(v: AppView) -> AppView {
    if next_item(v) is Some && next_job(v) is None {
        delete_failed(v, "not under root"@)
    } else {
        v
    }
}

/// The paths of the files that were deleted.
pub open spec fn deleted_paths(items: Seq<(PathView, StatusView)>) -> Set<Seq<Step>> {
    items.filter(|i: (PathView, StatusView)| i.1 == StatusView::Done).map_values(
        |i: (PathView, StatusView)| i.0.steps,
    ).to_set()
}

/// The files of a group that were not deleted.
pub open spec fn left_over(deleted: Set<Seq<Step>>) -> spec_fn(Seq<FileView>) -> Seq<FileView> {
    |g: Seq<FileView>| g.filter(|f: FileView| !deleted.contains(f.path))
}

/// The groups without the files that were deleted; those with one file left are no duplicates
/// any more.
pub open spec fn without(groups: Seq<Seq<FileView>>, deleted: Set<Seq<Step>>) -> Seq<Seq<FileView>> {
    groups.map_values(left_over(deleted)).filter(has_several())
}

/// Whether the deletion has come to its end.
pub open spec fn delete_is_over(v: AppView) -> bool {
    match v.dialog {
        DialogView::Deleting { job, .. } => job.current >= job.items.len(),
        _ => false,
    }
}

/// The state once the deletion is closed.
pub open spec fn delete_finished(v: AppView) -> AppView {
    match v.dialog {
        DialogView::Deleting { job, .. } => {
            let deleted = deleted_paths(job.items);
            let done = rebuilt(
                AppView {
                    groups: without(v.groups, deleted),
                    selected_for_delete: Map::empty(),
                    ..v
                },
            );
            AppView {
                dialog: DialogView::Closed,
                notification: Some("Deleted "@ + decimal(deleted.len()) + " file(s)"@),
                ..done
            }
        },
        _ => v,
    }
}

/// The deletion with all that was not deleted yet given up.
pub open spec fn given_up(job: DeletionView) -> DeletionView {
    DeletionView {
        items: Seq::new(
            job.items.len(),
            |i: int|
                if i < job.current {
                    job.items[i]
                } else {
                    (job.items[i].0, StatusView::Skipped)
                },
        ),
        current: job.items.len() as int,
        ..job
    }
}

/// The deletion with the current file passed over.
pub open spec fn passed_over(job: DeletionView) -> DeletionView {
    DeletionView {
        items: job.items.update(
            job.current,
            (job.items[job.current].0, StatusView::Failed("Skipped"@)),
        ),
        current: job.current + 1,
        ..job
    }
}

proof fn lemma_without_fits(groups: Seq<Seq<FileView>>, deleted: Set<Seq<Step>>)
    ensures
        none_empty(without(groups, deleted)),
        file_total(without(groups, deleted)) <= file_total(groups),
{
    let f = left_over(deleted);
    let less = groups.map_values(f);
    lemma_left_over_fewer(groups, deleted);
    filtering_leaves_no_more_files(less, has_several());
    let rest = without(groups, deleted);
    assert forall|i: int| 0 <= i < rest.len() implies (#[trigger] rest[i]).len() > 0 by {
        less.lemma_filter_pred(has_several(), i);
    }
}

proof fn lemma_left_over_fewer(groups: Seq<Seq<FileView>>, deleted: Set<Seq<Step>>)
    ensures
        file_total(groups.map_values(left_over(deleted))) <= file_total(groups),
    decreases groups.len(),
{
    let f = left_over(deleted);
    if groups.len() > 0 {
        lemma_left_over_fewer(groups.drop_last(), deleted);
        assert(groups.map_values(f).drop_last() =~= groups.drop_last().map_values(f));
        groups.last().lemma_filter_len(|x: FileView| !deleted.contains(x.path));
    }
}

fn collect_done(items: &Vec<(FilePath, DeleteStatus)>) -> (r: PathSet)
    ensures
        r.wf(),
        r@.dom() == deleted_paths(items_view(items@)),
{
    let ghost views = items_view(items@);
    let ghost p = |i: (PathView, StatusView)| i.1 == StatusView::Done;
    let ghost f = |i: (PathView, StatusView)| i.0.steps;
    let mut paths: Vec<FilePath> = Vec::new();
    let mut i: usize = 0;
    proof {
        lemma_filter_ends(views, p);
        assert(paths_view(paths@) =~= views.take(0).filter(p).map_values(f));
    }
    while i < items.len()
        invariant
            i <= items@.len(),
            views == items_view(items@),
            p == (|i: (PathView, StatusView)| i.1 == StatusView::Done),
            f == (|i: (PathView, StatusView)| i.0.steps),
            paths_view(paths@) == views.take(i as int).filter(p).map_values(f),
        decreases items@.len() - i,
    {
        let ghost paths0 = paths_view(paths@);
        proof {
            lemma_take_filter(views, p, i as int);
            assert(views[i as int] == (items@[i as int].0.full(), items@[i as int].1@));
        }
        if let DeleteStatus::Done = &items[i].1 {
            paths.push(items[i].0.clone());
            assert(paths_view(paths@) =~= paths0.push(views[i as int].0.steps));
        }
        i += 1;
        assert(paths_view(paths@) =~= views.take(i as int).filter(p).map_values(f));
    }
    proof {
        lemma_filter_ends(views, p);
    }
    let mut set = PathSet::new();
    let ghost full = full_paths_view(paths@);
    let ghost none = set@;
    assert(steps_of(full) =~= paths_view(paths@));
    insert_all(&mut set, paths);
    proof {
        putting_in_adds(none, full);
        assert(set@.dom() =~= deleted_paths(views));
    }
    set
}

fn retain_files(group: &Vec<FileInfo>, deleted: &PathSet) -> (r: Vec<FileInfo>)
    requires
        deleted.wf(),
    ensures
        group_view(r@) == left_over(deleted@.dom())(group_view(group@)),
{
    let ghost files = group_view(group@);
    let ghost p = |f: FileView| !deleted@.dom().contains(f.path);
    let mut out: Vec<FileInfo> = Vec::new();
    let mut i: usize = 0;
    proof {
        lemma_filter_ends(files, p);
        assert(group_view(out@) =~= files.take(0).filter(p));
    }
    while i < group.len()
        invariant
            i <= group@.len(),
            deleted.wf(),
            files == group_view(group@),
            p == (|f: FileView| !deleted@.dom().contains(f.path)),
            group_view(out@) == files.take(i as int).filter(p),
        decreases group@.len() - i,
    {
        let ghost out0 = group_view(out@);
        proof {
            lemma_take_filter(files, p, i as int);
            assert(files[i as int] == group@[i as int]@);
        }
        if !deleted.contains(&group[i].path) {
            out.push(group[i].clone());
            assert(group_view(out@) =~= out0.push(files[i as int]));
        }
        i += 1;
    }
    proof {
        lemma_filter_ends(files, p);
    }
    out
}

fn groups_without(groups: &DuplicateGroups, deleted: &PathSet) -> (r: DuplicateGroups)
    requires
        deleted.wf(),
    ensures
        groups_view(r@) == without(groups_view(groups@), deleted@.dom()),
{
    let ghost gs = groups_view(groups@);
    let ghost less = gs.map_values(left_over(deleted@.dom()));
    let ghost p = has_several();
    let mut out: DuplicateGroups = Vec::new();
    let mut i: usize = 0;
    proof {
        lemma_filter_ends(less, p);
        assert(groups_view(out@) =~= less.take(0).filter(p));
    }
    while i < groups.len()
        invariant
            i <= groups@.len(),
            deleted.wf(),
            gs == groups_view(groups@),
            less == gs.map_values(left_over(deleted@.dom())),
            p == has_several(),
            groups_view(out@) == less.take(i as int).filter(p),
        decreases groups@.len() - i,
    {
        let ghost out0 = groups_view(out@);
        proof {
            lemma_take_filter(less, p, i as int);
            assert(gs[i as int] == group_view(groups@[i as int]@));
        }
        let rest = retain_files(&groups[i], deleted);
        assert(group_view(rest@) == less[i as int]);
        assert(rest@.len() == less[i as int].len());
        if rest.len() > 1 {
            out.push(rest);
            assert(groups_view(out@) =~= out0.push(less[i as int]));
        }
        i += 1;
    }
    proof {
        lemma_filter_ends(less, p);
    }
    out
}

pub(crate) fn give_up(job: &mut Deletion)
    ensures
        final(job)@ == given_up(old(job)@),
{
    let ghost before = job@;
    let mut i: usize = job.current;
    while i < job.items.len()
        invariant
            before == old(job)@,
            job.current == old(job).current,
            job.permanent == old(job).permanent,
            job.items@.len() == before.items.len(),
            job.current <= i,
            job.current <= job.items@.len() ==> i <= job.items@.len(),
            forall|j: int|
                0 <= j < job.items@.len() ==> (#[trigger] job.items@[j]).0.full()
                    == before.items[j].0 && job.items@[j].1@ == if job.current <= j < i {
                    StatusView::Skipped
                } else {
                    before.items[j].1
                },
        decreases job.items@.len() - i,
    {
        let path = job.items[i].0.clone();
        job.items.set(i, (path, DeleteStatus::Skipped));
        i += 1;
    }
    job.current = job.items.len();
    assert(job@.items =~= given_up(before).items);
}

impl App {
    /// Opens the delete dialog, where anything is selected.
    pub fn open_delete_dialog(&mut self)
        requires
            old(self).inv(),
        ensures
            final(self).inv(),
            final(self)@ == delete_asked(old(self)@),
    {
        if self.selected_for_delete.is_empty() {
            return;
        }
        self.dialog = DialogState::ConfirmDelete { scroll: Some(0), button: DialogButton::Cancel };
    }

    /// Selects all files and opens the delete dialog.
    pub fn sync_all(&mut self)
        requires
            old(self).inv(),
        ensures
            final(self).inv(),
            final(self)@ == synced(old(self)@),
    {
        let ghost gs = self@.groups;
        let ghost before = self@.selected_for_delete;
        let mut i: usize = 0;
        assert(gs.take(0) =~= Seq::<Seq<FileView>>::empty());
        while i < self.groups.len()
            invariant
                i <= self.groups@.len(),
                self.inv(),
                gs == self@.groups,
                self@ == selecting(old(self)@, with_paths(before, all_paths(gs.take(i as int)))),
            decreases self.groups@.len() - i,
        {
            let paths = list_paths(&self.groups[i]);
            proof {
                assert(gs[i as int] == group_view(self.groups@[i as int]@));
                assert(gs.take(i + 1).drop_last() =~= gs.take(i as int));
                lemma_with_more(before, all_paths(gs.take(i as int)), paths_of(gs[i as int]));
            }
            insert_all(&mut self.selected_for_delete, paths);
            i += 1;
        }
        assert(gs.take(i as int) =~= gs);
        self.open_delete_dialog();
    }

    /// The directory into which files are moved.
    pub fn trash_dir(&self) -> (r: FilePath)
        ensures
            r.full() == trash_of(self@.root),
    {
        self.root.join_text(".dupfinder_trash")
    }

    /// Begins to delete what is selected, for good or by moving it into the trash directory. There
    /// is `trouble` where that directory could not be made.
    pub fn execute_delete(&mut self, permanent: bool, trouble: Option<String>)
        requires
            old(self).inv(),
        ensures
            final(self).inv(),
            final(self)@ == delete_begun(old(self)@, permanent, text_view(trouble)),
    {
        if !permanent {
            if let Some(e) = trouble {
                let mut line = String::new();
                line.append("Cannot create trash dir: ");
                line.append(e.as_str());
                assert(line@ =~= "Cannot create trash dir: "@ + e@);
                let mut lines: Vec<String> = Vec::new();
                lines.push(line);
                assert(texts_view(lines@) =~= seq!["Cannot create trash dir: "@ + e@]);
                self.dialog = DialogState::Error(lines);
                return;
            }
        }
        let paths = self.selected_for_delete.list();
        let ghost ps = listed(self@.selected_for_delete);
        let mut items: Vec<(FilePath, DeleteStatus)> = Vec::new();
        let mut i: usize = 0;
        while i < paths.len()
            invariant
                i <= paths@.len(),
                ps == full_paths_view(paths@),
                items@.len() == i,
                forall|j: int|
                    0 <= j < i ==> (#[trigger] items@[j]).0.full() == ps[j] && items@[j].1@
                        == StatusView::Pending,
            decreases paths@.len() - i,
        {
            items.push((paths[i].clone(), DeleteStatus::Pending));
            i += 1;
        }
        assert(items_view(items@) =~= pending(self@.selected_for_delete));
        self.dialog = DialogState::Deleting {
            job: Deletion { items, current: 0, permanent },
            scroll: Some(0),
        };
    }

    /// Says what is to be done with the next file. One that cannot be moved has failed.
    pub fn process_delete_step(&mut self) -> (r: Option<DeleteJob>)
        requires
            old(self).inv(),
        ensures
            final(self).inv(),
            final(self)@ == delete_looked(old(self)@),
            job_view(r) == next_job(old(self)@),
    {
        let (path, permanent): (FilePath, bool) = match &self.dialog {
            DialogState::Deleting { job, .. } => if job.current < job.items.len() {
                (job.items[job.current].0.clone(), job.permanent)
            } else {
                return None;
            },
            _ => {
                return None;
            },
        };
        assert(next_item(self@) == Some(path.full()));
        if permanent {
            return Some(DeleteJob::Remove { path });
        }
        match path.strip_prefix(&self.root) {
            Some(rel) => {
                let dest = self.trash_dir().join(&rel);
                let dest_dir = dest.parent();
                Some(DeleteJob::Move { path, dest, dest_dir })
            },
            None => {
                self.delete_step_failed("not under root".to_owned());
                None
            },
        }
    }

    /// Takes down that the next file could not be deleted.
    pub fn delete_step_failed(&mut self, error: String)
        requires
            old(self).inv(),
        ensures
            final(self).inv(),
            final(self)@ == delete_failed(old(self)@, error@),
    {
        let mut dialog = DialogState::Closed;
        std::mem::swap(&mut self.dialog, &mut dialog);
        self.dialog = match dialog {
            DialogState::Deleting { job, scroll } => if job.current < job.items.len() {
                DialogState::DeleteError { job, error, choice: DeleteErrorButton::Retry }
            } else {
                DialogState::Deleting { job, scroll }
            },
            other => other,
        };
    }

    /// Takes down that the next file was deleted.
    pub fn delete_step_done(&mut self)
        requires
            old(self).inv(),
        ensures
            final(self).inv(),
            final(self)@ == delete_succeeded(old(self)@),
    {
        let mut dialog = DialogState::Closed;
        std::mem::swap(&mut self.dialog, &mut dialog);
        self.dialog = match dialog {
            DialogState::Deleting { job, scroll } => if job.current < job.items.len() {
                let mut job = job;
                let ghost before = job@;
                let at: usize = job.current;
                let path = job.items[at].0.clone();
                job.items.set(at, (path, DeleteStatus::Done));
                job.current = at + 1;
                assert(job@.items =~= before.items.update(
                    at as int,
                    (before.items[at as int].0, StatusView::Done),
                ));
                let len: usize = job.items.len();
                let row: usize = if at + 1 < len {
                    at + 1
                } else {
                    len - 1
                };
                DialogState::Deleting { job, scroll: Some(row) }
            } else {
                DialogState::Deleting { job, scroll }
            },
            other => other,
        };
    }

    /// Closes a deletion that has come to its end. Says whether it did.
    pub fn finish_delete_if_over(&mut self) -> (r: bool)
        requires
            old(self).inv(),
        ensures
            final(self).inv(),
            r == delete_is_over(old(self)@),
            final(self)@ == if r {
                delete_finished(old(self)@)
            } else {
                old(self)@
            },
    {
        let over: bool = match &self.dialog {
            DialogState::Deleting { job, .. } => job.current >= job.items.len(),
            _ => false,
        };
        if over {
            self.finish_delete();
        }
        over
    }

    /// Closes the deletion: leaves out the files that were deleted.
    pub fn finish_delete(&mut self)
        requires
            old(self).inv(),
        ensures
            final(self).inv(),
            final(self)@ == delete_finished(old(self)@),
    {
        let deleted: PathSet = match &self.dialog {
            DialogState::Deleting { job, .. } => collect_done(&job.items),
            _ => {
                return;
            },
        };
        let count: usize = deleted.len();
        self.groups = groups_without(&self.groups, &deleted);
        self.selected_for_delete = PathSet::new();
        proof {
            lemma_without_fits(old(self)@.groups, deleted@.dom());
        }
        self.rebuild_tree();
        self.dialog = DialogState::Closed;
        let mut text = String::new();
        text.append("Deleted ");
        push_decimal(&mut text, count as u64);
        text.append(" file(s)");
        assert(text@ =~= "Deleted "@ + decimal(deleted@.dom().len()) + " file(s)"@);
        self.notification = Some(text);
    }
}

} // verus!
