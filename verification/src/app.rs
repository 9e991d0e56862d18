//! The state of the interface, and moving through it.
use vstd::prelude::*;

use crate::groups::{file_total, none_empty};
use crate::path::{full_path_view, FilePath, PathView, Step};
use crate::path_set::PathSet;
use crate::places::well_placed;
use crate::record::{group_view, groups_view, DuplicateGroups, FileInfo, FileView};
use crate::sequence::{lemma_filter_ends, lemma_take_filter};
use crate::tree::{file_count, numbered, rows, rows_view, well_formed, NodeView, SortMode, TreeNode};
use crate::tree_laws::{all_nodes, displayed_rows_are_nodes, in_group, labelled};

verus! {

// ---------------------------------------------------------------------------
// The state
// ---------------------------------------------------------------------------

/// The buttons of the delete dialog.
#[derive(Debug, Clone, Copy, PartialEq, Eq, Structural)]
pub enum DialogButton {
    Cancel,
    Trash,
    DeletePermanently,
}

/// The buttons of the dialog on a deletion that failed.
#[derive(Debug, Clone, Copy, PartialEq, Eq, Structural)]
pub enum DeleteErrorButton {
    Retry,
    Skip,
    Cancel,
}

/// What became of a file that is to be deleted.
#[derive(Debug)]
pub enum DeleteStatus {
    Pending,
    Done,
    Failed(String),
    Skipped,
}

/// What a `DeleteStatus` stands for.
pub enum StatusView {
    Pending,
    Done,
    Failed(Seq<char>),
    Skipped,
}

impl View for DeleteStatus {
    type V = StatusView;

    open spec fn view(&self) -> StatusView {
        match self {
            DeleteStatus::Pending => StatusView::Pending,
            DeleteStatus::Done => StatusView::Done,
            DeleteStatus::Failed(s) => StatusView::Failed(s@),
            DeleteStatus::Skipped => StatusView::Skipped,
        }
    }
}

/// The files that are being deleted, and how far that has come.
#[derive(Debug)]
pub struct Deletion {
    pub items: Vec<(FilePath, DeleteStatus)>,
    pub current: usize,
    pub permanent: bool,
}

/// What a `Deletion` stands for.
pub struct DeletionView {
    pub items: Seq<(PathView, StatusView)>,
    pub current: int,
    pub permanent: bool,
}

/// What files that are being deleted stand for.
pub open spec fn items_view(items: Seq<(FilePath, DeleteStatus)>) -> Seq<(PathView, StatusView)> {
    items.map_values(|i: (FilePath, DeleteStatus)| (i.0.full(), i.1@))
}

impl View for Deletion {
    type V = DeletionView;

    open spec fn view(&self) -> DeletionView {
        DeletionView {
            items: items_view(self.items@),
            current: self.current as int,
            permanent: self.permanent,
        }
    }
}

/// The dialog that is open.
#[derive(Debug)]
pub enum DialogState {
    Closed,
    ConfirmDelete { scroll: Option<usize>, button: DialogButton },
    Deleting { job: Deletion, scroll: Option<usize> },
    DeleteError { job: Deletion, error: String, choice: DeleteErrorButton },
    ConfirmQuit,
    Error(Vec<String>),
}

/// What a `DialogState` stands for.
pub enum DialogView {
    Closed,
    ConfirmDelete { scroll: Option<usize>, button: DialogButton },
    Deleting { job: DeletionView, scroll: Option<usize> },
    DeleteError { job: DeletionView, error: Seq<char>, choice: DeleteErrorButton },
    ConfirmQuit,
    Error(Seq<Seq<char>>),
}

/// What a sequence of texts stands for.
pub open spec fn texts_view(texts: Seq<String>) -> Seq<Seq<char>> {
    texts.map_values(|t: String| t@)
}

impl View for DialogState {
    type V = DialogView;

    open spec fn view(&self) -> DialogView {
        match self {
            DialogState::Closed => DialogView::Closed,
            DialogState::ConfirmDelete { scroll, button } => DialogView::ConfirmDelete {
                scroll: *scroll,
                button: *button,
            },
            DialogState::Deleting { job, scroll } => DialogView::Deleting {
                job: job@,
                scroll: *scroll,
            },
            DialogState::DeleteError { job, error, choice } => DialogView::DeleteError {
                job: job@,
                error: error@,
                choice: *choice,
            },
            DialogState::ConfirmQuit => DialogView::ConfirmQuit,
            DialogState::Error(texts) => DialogView::Error(texts_view(texts@)),
        }
    }
}

/// The state of the interface.
#[derive(Debug)]
pub struct App {
    pub groups: DuplicateGroups,
    pub root: FilePath,
    pub tree: TreeNode,
    /// The row that is highlighted in the tree.
    pub left: Option<usize>,
    /// The row that is highlighted among the copies.
    pub right: Option<usize>,
    pub focus_right: bool,
    pub read_only: bool,
    pub selected_for_delete: PathSet,
    pub dialog: DialogState,
    pub sort_mode: SortMode,
    pub filter: String,
    pub filtering: bool,
    pub show_preview: bool,
    /// The file whose preview is at hand.
    pub preview: Option<FilePath>,
    pub notification: Option<String>,
    pub terminal_height: u16,
}

/// What an `App` stands for.
pub struct AppView {
    pub groups: Seq<Seq<FileView>>,
    pub root: PathView,
    pub tree: NodeView,
    pub left: Option<usize>,
    pub right: Option<usize>,
    pub focus_right: bool,
    pub read_only: bool,
    /// Each path with the way in which it is written.
    pub selected_for_delete: Map<Seq<Step>, Seq<u8>>,
    pub dialog: DialogView,
    pub sort_mode: SortMode,
    pub filter: Seq<char>,
    pub filtering: bool,
    pub show_preview: bool,
    pub preview: Option<PathView>,
    pub notification: Option<Seq<char>>,
    pub terminal_height: u16,
}

/// What a text that there perhaps is stands for.
pub open spec fn text_view(text: Option<String>) -> Option<Seq<char>> {
    match text {
        Some(t) => Some(t@),
        None => None,
    }
}

impl View for App {
    type V = AppView;

    open spec fn view(&self) -> AppView {
        AppView {
            groups: groups_view(self.groups@),
            root: self.root.full(),
            tree: self.tree@,
            left: self.left,
            right: self.right,
            focus_right: self.focus_right,
            read_only: self.read_only,
            selected_for_delete: self.selected_for_delete@,
            dialog: self.dialog@,
            sort_mode: self.sort_mode,
            filter: self.filter@,
            filtering: self.filtering,
            show_preview: self.show_preview,
            preview: full_path_view(self.preview),
            notification: text_view(self.notification),
            terminal_height: self.terminal_height,
        }
    }
}

impl AppView {
    /// The paths that are selected.
    pub open spec fn selected(self) -> Set<Seq<Step>> {
        self.selected_for_delete.dom()
    }
}

/// Every group has a file; all files can be counted; and the tree is one of files of the groups.
pub open spec fn app_inv(v: AppView) -> bool {
    &&& none_empty(v.groups)
    &&& v.groups.len() <= usize::MAX
    &&& file_total(v.groups) <= usize::MAX
    &&& tree_inv(v.tree, v.groups)
    &&& v.dialog matches DialogView::DeleteError { job, .. } ==> job.current < job.items.len()
}

/// The tree is one of files of the groups, which can be counted and stand where their paths say.
pub open spec fn tree_inv(tree: NodeView, groups: Seq<Seq<FileView>>) -> bool {
    &&& tree.is_dir
    &&& well_formed(tree)
    &&& well_placed(tree, seq![], tree.path)
    &&& all_nodes(tree, labelled(numbered(groups)))
    &&& file_count(tree) <= usize::MAX
}

impl App {
    /// The state is as it should be.
    pub open spec fn inv(&self) -> bool {
        app_inv(self@) && self.selected_for_delete.wf()
    }
}

// ---------------------------------------------------------------------------
// What is highlighted
// ---------------------------------------------------------------------------

/// The displayed rows of the tree.
pub open spec fn current_rows(v: AppView) -> Seq<(nat, NodeView)> {
    rows(v.tree, v.sort_mode)
}

/// The node that is highlighted in the tree.
pub open spec fn current_node(v: AppView) -> Option<NodeView> {
    match v.left {
        Some(i) => if i < current_rows(v).len() {
            Some(current_rows(v)[i as int].1)
        } else {
            None
        },
        None => None,
    }
}

/// The file that is highlighted in the tree, and its group.
pub open spec fn chosen_file(v: AppView) -> Option<(FileView, usize)> {
    match current_node(v) {
        Some(node) => match (node.file_info, node.group_index) {
            (Some(f), Some(g)) => Some((f, g)),
            _ => None,
        },
        None => None,
    }
}

/// The files of a group at other paths.
pub open spec fn copies(group: Seq<FileView>, path: Seq<Step>) -> Seq<FileView> {
    group.filter(|f: FileView| f.path != path)
}

/// The row that is highlighted among the copies, the first where none is.
pub open spec fn right_index(v: AppView) -> int {
    match v.right {
        Some(i) => i as int,
        None => 0,
    }
}

/// How many rows there are among the copies: the highlighted file and its copies.
pub open spec fn right_len(v: AppView) -> nat {
    match chosen_file(v) {
        Some((f, g)) => 1 + copies(v.groups[g as int], f.path).len(),
        None => 0,
    }
}

/// The path that is highlighted among the copies.
pub open spec fn target(v: AppView) -> Option<PathView> {
    match chosen_file(v) {
        Some((f, g)) => {
            let others = copies(v.groups[g as int], f.path);
            if right_index(v) == 0 {
                Some(f.full_path())
            } else if right_index(v) - 1 < others.len() {
                Some(others[right_index(v) - 1].full_path())
            } else {
                None
            }
        },
        None => None,
    }
}

/// A file that is highlighted is one of its group.
pub proof fn chosen_file_is_in_its_group(v: AppView)
    requires
        app_inv(v),
        chosen_file(v) is Some,
    ensures
        (chosen_file(v)->0).1 < v.groups.len(),
        v.groups[(chosen_file(v)->0).1 as int].contains((chosen_file(v)->0).0),
        (current_node(v)->0).path == (chosen_file(v)->0).0.path,
        !(current_node(v)->0).is_dir,
{
    let (f, g) = chosen_file(v)->0;
    let gs = numbered(v.groups);
    let i = v.left->0 as int;
    displayed_rows_are_nodes(v.tree, v.sort_mode, labelled(gs));
    let node = current_rows(v)[i].1;
    assert(all_nodes(node, labelled(gs)));
    assert(labelled(gs)(node));
    assert(in_group(gs, f, g));
    let k = choose|k: int| 0 <= k < gs.len() && (#[trigger] gs[k]).0 == g && gs[k].1.contains(f);
    assert(gs[k] == (k as usize, v.groups[k]));
}

proof fn lemma_copies_fewer(group: Seq<FileView>, f: FileView)
    requires
        group.contains(f),
    ensures
        copies(group, f.path).len() < group.len(),
    decreases group.len(),
{
    reveal(Seq::filter);
    let p = |x: FileView| x.path != f.path;
    let front = group.drop_last();
    if group.last() == f {
        front.lemma_filter_len(p);
    } else {
        let i = choose|i: int| 0 <= i < group.len() && group[i] == f;
        assert(front[i] == f);
        lemma_copies_fewer(front, f);
    }
}

pub(crate) fn copies_of<'a>(group: &'a Vec<FileInfo>, path: &FilePath) -> (r: Vec<&'a FileInfo>)
    ensures
        r@.map_values(|f: &'a FileInfo| f@) == copies(group_view(group@), path@),
{
    let ghost files = group_view(group@);
    let ghost p = |f: FileView| f.path != path@;
    let mut out: Vec<&'a FileInfo> = Vec::new();
    let mut i: usize = 0;
    proof {
        lemma_filter_ends(files, p);
        assert(out@.map_values(|f: &'a FileInfo| f@) =~= files.take(0).filter(p));
    }
    while i < group.len()
        invariant
            i <= group@.len(),
            files == group_view(group@),
            p == (|f: FileView| f.path != path@),
            out@.map_values(|f: &'a FileInfo| f@) == files.take(i as int).filter(p),
        decreases group@.len() - i,
    {
        let ghost out0 = out@.map_values(|f: &'a FileInfo| f@);
        proof {
            lemma_take_filter(files, p, i as int);
            assert(files[i as int] == group@[i as int]@);
        }
        if !group[i].path.equals(path) {
            out.push(&group[i]);
            assert(out@.map_values(|f: &'a FileInfo| f@) =~= out0.push(files[i as int]));
        }
        i += 1;
    }
    proof {
        lemma_filter_ends(files, p);
    }
    out
}

impl App {
    /// The displayed rows of the tree.
    pub fn displayed(&self) -> (r: Vec<(usize, &TreeNode)>)
        requires
            self.inv(),
        ensures
            rows_view(r@) == current_rows(self@),
            r@.len() == current_rows(self@).len(),
            forall|i: int|
                0 <= i < r@.len() ==> (#[trigger] r@[i]).0 == current_rows(self@)[i].0
                    && r@[i].1@ == current_rows(self@)[i].1,
    {
        let r = self.tree.flatten_sorted(self.sort_mode);
        proof {
            assert(rows_view(r@).len() == r@.len());
            assert forall|i: int| 0 <= i < r@.len() implies (#[trigger] r@[i]).0 == current_rows(
                self@,
            )[i].0 && r@[i].1@ == current_rows(self@)[i].1 by {
                assert(rows_view(r@)[i] == (r@[i].0 as nat, r@[i].1@));
            }
        }
        r
    }

    /// The node that is highlighted in the tree.
    pub fn current(&self) -> (r: Option<&TreeNode>)
        requires
            self.inv(),
        ensures
            match r {
                Some(node) => current_node(self@) == Some(node@),
                None => current_node(self@) is None,
            },
    {
        let flat = self.displayed();
        match self.left {
            Some(i) => if i < flat.len() {
                Some(flat[i].1)
            } else {
                None
            },
            None => None,
        }
    }

    /// The file that is highlighted in the tree, and its group.
    pub fn selected_file(&self) -> (r: Option<(&FileInfo, usize)>)
        requires
            self.inv(),
        ensures
            match r {
                Some((f, g)) => chosen_file(self@) == Some((f@, g)) && g < self.groups@.len()
                    && self@.groups[g as int].contains(f@),
                None => chosen_file(self@) is None,
            },
    {
        let node = match self.current() {
            Some(n) => n,
            None => {
                return None;
            },
        };
        match (&node.file_info, node.group_index) {
            (Some(f), Some(g)) => {
                proof {
                    assert(node@.file_info == Some(f@));
                    chosen_file_is_in_its_group(self@);
                }
                Some((f, g))
            },
            _ => None,
        }
    }

    /// How many rows there are among the copies.
    pub fn right_items_len(&self) -> (r: usize)
        requires
            self.inv(),
        ensures
            r == right_len(self@),
    {
        match self.selected_file() {
            Some((f, g)) => {
                let others = copies_of(&self.groups[g], &f.path);
                proof {
                    let group = self@.groups[g as int];
                    assert(group == group_view(self.groups@[g as int]@));
                    lemma_copies_fewer(group, f@);
                    assert(others@.map_values(|f: &FileInfo| f@).len() == others@.len());
                    assert(self.groups@[g as int].len() <= usize::MAX);
                }
                1 + others.len()
            },
            None => 0,
        }
    }

    /// The path that is highlighted among the copies.
    pub fn target_path(&self) -> (r: Option<FilePath>)
        requires
            self.inv(),
        ensures
            full_path_view(r) == target(self@),
    {
        let (f, g) = match self.selected_file() {
            Some(s) => s,
            None => {
                return None;
            },
        };
        let at: usize = match self.right {
            Some(i) => i,
            None => 0,
        };
        if at == 0 {
            return Some(f.path.clone());
        }
        let others = copies_of(&self.groups[g], &f.path);
        proof {
            assert(self@.groups[g as int] == group_view(self.groups@[g as int]@));
            assert(others@.map_values(|f: &FileInfo| f@).len() == others@.len());
        }
        if at - 1 < others.len() {
            assert(others@.map_values(|f: &FileInfo| f@)[at - 1] == others@[at - 1]@);
            Some(others[at - 1].path.clone())
        } else {
            None
        }
    }
}

// ---------------------------------------------------------------------------
// Moving
// ---------------------------------------------------------------------------

/// The row `n` rows further down, but no further than the last of `len`; the first where none was
/// highlighted.
pub open spec fn further(at: Option<usize>, n: int, len: int) -> usize {
    match at {
        Some(i) => if i + n < len - 1 {
            (i + n) as usize
        } else {
            (len - 1) as usize
        },
        None => 0,
    }
}

/// The row `n` rows further up, but no further than the first.
pub open spec fn back(at: Option<usize>, n: int) -> usize {
    match at {
        Some(i) => if i >= n {
            (i - n) as usize
        } else {
            0
        },
        None => 0,
    }
}

/// The state once another row is highlighted in the tree.
pub open spec fn at_left(v: AppView, i: usize) -> AppView {
    AppView { left: Some(i), right: Some(0), preview: None, ..v }
}

/// The state once another row is highlighted among the copies.
pub open spec fn at_right(v: AppView, i: usize) -> AppView {
    AppView { right: Some(i), ..v }
}

/// The state once the highlight has moved `n` rows down in the pane that has the focus.
pub open spec fn moved_down(v: AppView, n: int) -> AppView {
    if v.focus_right {
        if right_len(v) > 0 {
            at_right(v, further(v.right, n, right_len(v) as int))
        } else {
            v
        }
    } else if current_rows(v).len() > 0 {
        at_left(v, further(v.left, n, current_rows(v).len() as int))
    } else {
        v
    }
}

/// The state once the highlight has moved `n` rows up in the pane that has the focus.
pub open spec fn moved_up(v: AppView, n: int) -> AppView {
    if v.focus_right {
        at_right(v, back(v.right, n))
    } else {
        at_left(v, back(v.left, n))
    }
}

/// The state once the first row is highlighted in the pane that has the focus.
pub open spec fn at_top(v: AppView) -> AppView {
    if v.focus_right {
        at_right(v, 0)
    } else {
        at_left(v, 0)
    }
}

/// The state once the last row is highlighted in the pane that has the focus.
pub open spec fn at_bottom(v: AppView) -> AppView {
    if v.focus_right {
        if right_len(v) > 0 {
            at_right(v, (right_len(v) - 1) as usize)
        } else {
            v
        }
    } else if current_rows(v).len() > 0 {
        at_left(v, (current_rows(v).len() - 1) as usize)
    } else {
        v
    }
}

/// How many rows a page has: what the terminal shows of a pane, but five at least.
pub open spec fn page_rows(terminal_height: u16) -> int {
    if terminal_height >= 17 {
        terminal_height - 12
    } else {
        5
    }
}

pub(crate) fn step_down(at: Option<usize>, n: usize, len: usize) -> (r: usize)
    requires
        len > 0,
    ensures
        r == further(at, n as int, len as int),
{
    match at {
        Some(i) => if i < len && n < len - i && i + n < len - 1 {
            i + n
        } else {
            len - 1
        },
        None => 0,
    }
}

pub(crate) fn step_up(at: Option<usize>, n: usize) -> (r: usize)
    ensures
        r == back(at, n as int),
{
    match at {
        Some(i) => if i >= n {
            i - n
        } else {
            0
        },
        None => 0,
    }
}

impl App {
    fn go_left(&mut self, i: usize)
        requires
            old(self).inv(),
        ensures
            final(self).inv(),
            final(self)@ == at_left(old(self)@, i),
    {
        self.left = Some(i);
        self.right = Some(0);
        self.preview = None;
    }

    fn go_down(&mut self, n: usize)
        requires
            old(self).inv(),
        ensures
            final(self).inv(),
            final(self)@ == moved_down(old(self)@, n as int),
    {
        if self.focus_right {
            let len: usize = self.right_items_len();
            if len > 0 {
                self.right = Some(step_down(self.right, n, len));
            }
        } else {
            let len: usize = self.displayed().len();
            if len > 0 {
                self.go_left(step_down(self.left, n, len));
            }
        }
    }

    fn go_up(&mut self, n: usize)
        requires
            old(self).inv(),
        ensures
            final(self).inv(),
            final(self)@ == moved_up(old(self)@, n as int),
    {
        if self.focus_right {
            self.right = Some(step_up(self.right, n));
        } else {
            self.go_left(step_up(self.left, n));
        }
    }

    /// Highlights the next row.
    pub fn move_down(&mut self)
        requires
            old(self).inv(),
        ensures
            final(self).inv(),
            final(self)@ == moved_down(old(self)@, 1),
    {
        self.go_down(1);
    }

    /// Highlights the row before.
    pub fn move_up(&mut self)
        requires
            old(self).inv(),
        ensures
            final(self).inv(),
            final(self)@ == moved_up(old(self)@, 1),
    {
        self.go_up(1);
    }

    /// Highlights the first row.
    pub fn jump_top(&mut self)
        requires
            old(self).inv(),
        ensures
            final(self).inv(),
            final(self)@ == at_top(old(self)@),
    {
        if self.focus_right {
            self.right = Some(0);
        } else {
            self.go_left(0);
        }
    }

    /// Highlights the last row.
    pub fn jump_bottom(&mut self)
        requires
            old(self).inv(),
        ensures
            final(self).inv(),
            final(self)@ == at_bottom(old(self)@),
    {
        if self.focus_right {
            let len: usize = self.right_items_len();
            if len > 0 {
                self.right = Some(len - 1);
            }
        } else {
            let len: usize = self.displayed().len();
            if len > 0 {
                self.go_left(len - 1);
            }
        }
    }

    fn page(&self) -> (r: usize)
        ensures
            r == page_rows(self@.terminal_height),
    {
        if self.terminal_height >= 17 {
            (self.terminal_height - 12) as usize
        } else {
            5
        }
    }

    /// Highlights the row one page further down.
    pub fn page_down(&mut self)
        requires
            old(self).inv(),
        ensures
            final(self).inv(),
            final(self)@ == moved_down(old(self)@, page_rows(old(self)@.terminal_height)),
    {
        let n: usize = self.page();
        self.go_down(n);
    }

    /// Highlights the row one page further up.
    pub fn page_up(&mut self)
        requires
            old(self).inv(),
        ensures
            final(self).inv(),
            final(self)@ == moved_up(old(self)@, page_rows(old(self)@.terminal_height)),
    {
        let n: usize = self.page();
        self.go_up(n);
    }
}

} // verus!
