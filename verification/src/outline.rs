//! How the tree is built, sorted and filtered.
use vstd::prelude::*;

use crate::app::{at_left, current_rows, target, tree_inv, App, AppView, DialogState, DialogView};
use crate::cache::lemma_filter_all;
use crate::groups::{
    file_total, none_empty, sort_groups, sorted_groups, sorting_keeps_groups, sorting_keeps_totals,
};
use crate::path::{path_parent, shown_text, FilePath, PathView, Step};
use crate::path_set::PathSet;
use crate::places::built_trees_are_well_placed;
use crate::record::{group_view, groups_view, DuplicateGroups, FileInfo, FileView};
use crate::selection::{lemma_setting_keeps_inv, lemma_toggling_keeps_inv};
use crate::sequence::{lemma_filter_ends, lemma_filter_part, lemma_filter_same, lemma_take_filter};
use crate::text::{
    ascii_lowercase, chars_of, has_infix, is_ascii_text, lowercase_of, text_contains, to_lowercase,
};
use crate::tree::{
    all_set, build_tree, build_tree_indexed, built_trees_are_well_formed, group_added, numbered,
    numbered_view, rows, rows_view, toggled, tree_of, tree_upto, NodeView, SortMode, TreeNode,
};
use crate::tree_laws::{
    all_nodes, built_trees_are_labelled, built_trees_hold_no_more, in_group, labelled,
    numbered_groups_list_all, some_groups_list_no_more,
};

verus! {

/// The state once all directories are collapsed.
pub open spec fn collapsed(v: AppView) -> AppView {
    AppView {
        tree: all_set(v.tree, false),
        left: Some(0),
        right: Some(0),
        preview: None,
        ..v
    }
}

/// The state once all directories are expanded.
pub open spec fn expanded(v: AppView) -> AppView {
    AppView { tree: all_set(v.tree, true), preview: None, ..v }
}

/// The first row of a path.
pub open spec fn row_of(rows: Seq<(nat, NodeView)>, path: Seq<Step>) -> Option<usize>
    decreases rows.len(),
{
    if rows.len() == 0 {
        None
    } else {
        match row_of(rows.drop_last(), path) {
            Some(i) => Some(i),
            None => if rows.last().1.path == path {
                Some((rows.len() - 1) as usize)
            } else {
                None
            },
        }
    }
}

/// The state with the focus on a row of the tree.
pub open spec fn focused(v: AppView, i: usize) -> AppView {
    AppView { focus_right: false, ..at_left(v, i) }
}

/// The state once the tree shows the copy that is highlighted. Where it is not displayed but its
/// directory is, that is expanded or collapsed for it.
pub open spec fn shown_in_tree(v: AppView) -> AppView {
    if !v.focus_right {
        v
    } else {
        match target(v) {
            Some(path) => match row_of(current_rows(v), path.steps) {
                Some(i) => focused(v, i),
                None => match path_parent(path.steps) {
                    Some(dir) => if row_of(current_rows(v), dir) is Some {
                        let open = AppView { tree: toggled(v.tree, dir), ..v };
                        match row_of(current_rows(open), path.steps) {
                            Some(i) => focused(open, i),
                            None => match row_of(current_rows(open), dir) {
                                Some(i) => focused(open, i),
                                None => focused(open, 0),
                            },
                        }
                    } else {
                        v
                    },
                    None => v,
                },
            },
            None => v,
        }
    }
}

/// Whether the path of a file of the group has the filter in it, whatever the case of letters.
pub open spec fn matches_filter(group: Seq<FileView>, filter: Seq<char>) -> bool {
    exists|i: int|
        0 <= i < group.len() && has_infix(
            lowercase_of(shown_text((#[trigger] group[i]).written)),
            lowercase_of(filter),
        )
}

/// The groups that the filter lets through, with their positions.
pub open spec fn filtered(groups: Seq<Seq<FileView>>, filter: Seq<char>) -> Seq<
    (usize, Seq<FileView>),
> {
    if filter.len() == 0 {
        numbered(groups)
    } else {
        numbered(groups).filter(|g: (usize, Seq<FileView>)| matches_filter(g.1, filter))
    }
}

/// The shown paths of all files are ASCII.
pub open spec fn ascii_paths(groups: Seq<Seq<FileView>>) -> bool {
    forall|g: int, i: int|
        0 <= g < groups.len() && 0 <= i < groups[g].len() ==> is_ascii_text(
            shown_text((#[trigger] groups[g][i]).written),
        )
}

/// The path of a file of the group has the filter in it once capital letters are made small in
/// both.
pub open spec fn ascii_match(group: Seq<FileView>, filter: Seq<char>) -> bool {
    exists|i: int|
        0 <= i < group.len() && has_infix(
            ascii_lowercase(shown_text((#[trigger] group[i]).written)),
            ascii_lowercase(filter),
        )
}

/// The groups with such a file, with their positions; all where there is no filter.
pub open spec fn ascii_filtered(groups: Seq<Seq<FileView>>, filter: Seq<char>) -> Seq<
    (usize, Seq<FileView>),
> {
    numbered(groups).filter(
        |g: (usize, Seq<FileView>)| filter.len() == 0 || ascii_match(g.1, filter),
    )
}

/// The state once the tree is built anew from the groups that the filter lets through.
pub open spec fn rebuilt(v: AppView) -> AppView {
    let tree = tree_of(filtered(v.groups, v.filter), v.root);
    let len = rows(tree, v.sort_mode).len();
    let at = match v.left {
        Some(i) => i as int,
        None => 0,
    };
    AppView {
        tree,
        left: if len == 0 {
            None
        } else if at < len {
            Some(at as usize)
        } else {
            Some((len - 1) as usize)
        },
        right: if len == 0 {
            None
        } else {
            Some(0)
        },
        preview: None,
        focus_right: false,
        ..v
    }
}

/// The sort mode after another: name, size, date, count, and name again.
pub open spec fn next_mode(mode: SortMode) -> SortMode {
    match mode {
        SortMode::Name => SortMode::Size,
        SortMode::Size => SortMode::Date,
        SortMode::Date => SortMode::Count,
        SortMode::Count => SortMode::Name,
    }
}

/// The state once everything is sorted by the next mode.
pub open spec fn resorted(v: AppView) -> AppView {
    let mode = next_mode(v.sort_mode);
    rebuilt(AppView { sort_mode: mode, groups: sorted_groups(v.groups, mode), ..v })
}

/// The state at the beginning.
pub open spec fn initial(groups: Seq<Seq<FileView>>, root: PathView, read_only: bool) -> AppView {
    let sorted = sorted_groups(groups, SortMode::Name);
    let tree = tree_of(numbered(sorted), root);
    AppView {
        groups: sorted,
        root,
        tree,
        left: if rows(tree, SortMode::Name).len() > 0 {
            Some(0)
        } else {
            None
        },
        right: None,
        focus_right: false,
        read_only,
        selected_for_delete: Map::empty(),
        dialog: DialogView::Closed,
        sort_mode: SortMode::Name,
        filter: seq![],
        filtering: false,
        show_preview: true,
        preview: None,
        notification: None,
        terminal_height: 24,
    }
}

fn find_row(flat: &Vec<(usize, &TreeNode)>, path: &FilePath) -> (r: Option<usize>)
    ensures
        r == row_of(rows_view(flat@), path@),
{
    let ghost views = rows_view(flat@);
    let mut i: usize = 0;
    assert(views.take(0) =~= Seq::<(nat, NodeView)>::empty());
    while i < flat.len()
        invariant
            i <= flat@.len(),
            views == rows_view(flat@),
            row_of(views.take(i as int), path@) is None,
        decreases flat@.len() - i,
    {
        proof {
            assert(views.take(i + 1).drop_last() =~= views.take(i as int));
            assert(views[i as int] == (flat@[i as int].0 as nat, flat@[i as int].1@));
        }
        if flat[i].1.path.equals(path) {
            proof {
                lemma_row_of_first(views, path@, i as int);
            }
            return Some(i);
        }
        i += 1;
    }
    assert(views.take(i as int) =~= views);
    None
}

proof fn lemma_row_of_first(rows: Seq<(nat, NodeView)>, path: Seq<Step>, i: int)
    requires
        0 <= i < rows.len() <= usize::MAX,
        row_of(rows.take(i), path) is None,
        rows[i].1.path == path,
    ensures
        row_of(rows, path) == Some(i as usize),
    decreases rows.len(),
{
    if i == rows.len() - 1 {
        assert(rows.drop_last() =~= rows.take(i));
    } else {
        assert(rows.drop_last().take(i) =~= rows.take(i));
        lemma_row_of_first(rows.drop_last(), path, i);
    }
}

fn group_matches(group: &Vec<FileInfo>, filter: &String, lower: &String) -> (r: bool)
    requires
        lower@ == lowercase_of(filter@),
    ensures
        r == matches_filter(group_view(group@), filter@),
        lower@ == ascii_lowercase(filter@) && (forall|i: int|
            0 <= i < group@.len() ==> is_ascii_text(shown_text((#[trigger] group@[i])@.written)))
            ==> r == ascii_match(group_view(group@), filter@),
{
    let ghost files = group_view(group@);
    let ghost plain = lower@ == ascii_lowercase(filter@) && (forall|i: int|
        0 <= i < group@.len() ==> is_ascii_text(shown_text((#[trigger] group@[i])@.written)));
    let mut i: usize = 0;
    while i < group.len()
        invariant
            i <= group@.len(),
            files == group_view(group@),
            lower@ == lowercase_of(filter@),
            plain == (lower@ == ascii_lowercase(filter@) && (forall|i: int|
                0 <= i < group@.len() ==> is_ascii_text(
                    shown_text((#[trigger] group@[i])@.written),
                ))),
            forall|j: int|
                0 <= j < i ==> !has_infix(
                    lowercase_of(shown_text((#[trigger] files[j]).written)),
                    lowercase_of(filter@),
                ),
            plain ==> forall|j: int|
                0 <= j < i ==> !has_infix(
                    ascii_lowercase(shown_text((#[trigger] files[j]).written)),
                    ascii_lowercase(filter@),
                ),
        decreases group@.len() - i,
    {
        let text = group[i].path.to_text();
        let low = to_lowercase(text.as_str());
        assert(files[i as int] == group@[i as int]@);
        if text_contains(low.as_str(), lower.as_str()) {
            return true;
        }
        i += 1;
    }
    false
}

proof fn lemma_filtered_is_part(groups: Seq<Seq<FileView>>, filter: Seq<char>, k: int)
    requires
        0 <= k < filtered(groups, filter).len(),
    ensures
        numbered(groups).contains(filtered(groups, filter)[k]),
{
    let all = numbered(groups);
    if filter.len() > 0 {
        let p = |g: (usize, Seq<FileView>)| matches_filter(g.1, filter);
        lemma_filter_part(all, p, k);
    }
}

proof fn lemma_all_nodes_weaker(
    node: NodeView,
    p: spec_fn(NodeView) -> bool,
    q: spec_fn(NodeView) -> bool,
)
    requires
        all_nodes(node, p),
        forall|n: NodeView| #[trigger] p(n) ==> q(n),
    ensures
        all_nodes(node, q),
    decreases node,
{
    assert(p(node));
    assert forall|i: int| 0 <= i < node.children.len() implies all_nodes(
        #[trigger] node.children[i],
        q,
    ) by {
        lemma_all_nodes_weaker(node.children[i], p, q);
    }
}

/// A tree that is built from the groups that a filter lets through is one of files of the groups.
proof fn lemma_built_tree_inv(groups: Seq<Seq<FileView>>, filter: Seq<char>, root: PathView)
    requires
        file_total(groups) <= usize::MAX,
    ensures
        tree_inv(tree_of(filtered(groups, filter), root), groups),
{
    let part = filtered(groups, filter);
    let all = numbered(groups);
    let tree = tree_of(part, root);
    built_trees_are_labelled(part, root);
    built_trees_hold_no_more(part, root);
    numbered_groups_list_all(groups);
    if filter.len() > 0 {
        some_groups_list_no_more(
            all,
            |g: (usize, Seq<FileView>)| matches_filter(g.1, filter),
        );
    }
    assert forall|n: NodeView| #[trigger] labelled(part)(n) implies labelled(all)(n) by {
        if let (Some(f), Some(g)) = (n.file_info, n.group_index) {
            assert(in_group(part, f, g));
            let k = choose|k: int|
                0 <= k < part.len() && (#[trigger] part[k]).0 == g && part[k].1.contains(f);
            lemma_filtered_is_part(groups, filter, k);
            let m = choose|m: int| 0 <= m < all.len() && all[m] == part[k];
            assert(in_group(all, f, g));
        }
    }
    lemma_all_nodes_weaker(tree, labelled(part), labelled(all));
    lemma_tree_root(part, root, part.len() as int);
    built_trees_are_well_formed(part, root, part.len() as int);
    built_trees_are_well_placed(part, root, part.len() as int);
}

proof fn lemma_tree_root(groups: Seq<(usize, Seq<FileView>)>, root: PathView, k: int)
    ensures
        tree_upto(groups, root, k).is_dir,
        tree_upto(groups, root, k).path == root.steps,
    decreases k,
{
    if 0 < k <= groups.len() {
        lemma_tree_root(groups, root, k - 1);
        let (number, files) = groups[k - 1];
        lemma_group_root(
            tree_upto(groups, root, k - 1),
            root.steps,
            files,
            number,
            files.len() as int,
        );
    }
}

proof fn lemma_group_root(
    tree: NodeView,
    root: Seq<Step>,
    files: Seq<FileView>,
    group: usize,
    k: int,
)
    ensures
        group_added(tree, root, files, group, k).is_dir == tree.is_dir,
        group_added(tree, root, files, group, k).path == tree.path,
    decreases k,
{
    if 0 < k <= files.len() {
        lemma_group_root(tree, root, files, group, k - 1);
    }
}

proof fn lemma_sorting_keeps_total(groups: Seq<Seq<FileView>>, mode: SortMode)
    ensures
        file_total(sorted_groups(groups, mode)) == file_total(groups),
        none_empty(groups) ==> none_empty(sorted_groups(groups, mode)),
{
    sorting_keeps_totals(groups, mode);
    sorting_keeps_groups(groups, mode);
    let sorted = sorted_groups(groups, mode);
    if none_empty(groups) {
        assert forall|i: int| 0 <= i < sorted.len() implies (#[trigger] sorted[i]).len() > 0 by {
            assert(groups.contains(sorted[i]));
        }
    }
}

impl App {
    /// The state at the beginning.
    pub fn new(groups: DuplicateGroups, root: FilePath, read_only: bool) -> (r: App)
        requires
            none_empty(groups_view(groups@)),
            file_total(groups_view(groups@)) <= usize::MAX,
        ensures
            r.inv(),
            r@ == initial(groups_view(groups@), root.full(), read_only),
    {
        let ghost gs = groups_view(groups@);
        let mut sorted = groups;
        sort_groups(&mut sorted, SortMode::Name);
        let ghost ss = groups_view(sorted@);
        let tree = build_tree(&sorted, &root);
        let empty: bool = tree.flatten().len() == 0;
        proof {
            lemma_sorting_keeps_total(gs, SortMode::Name);
            lemma_built_tree_inv(ss, seq![], root.full());
            assert(ss.len() == sorted.len());
        }
        let r = App {
            groups: sorted,
            root,
            tree,
            left: if empty {
                None
            } else {
                Some(0)
            },
            right: None,
            focus_right: false,
            read_only,
            selected_for_delete: PathSet::new(),
            dialog: DialogState::Closed,
            sort_mode: SortMode::Name,
            filter: String::new(),
            filtering: false,
            show_preview: true,
            preview: None,
            notification: None,
            terminal_height: 24,
        };
        assert(r@.filter =~= Seq::<char>::empty());
        r
    }

    /// Collapses all directories.
    pub fn collapse_all(&mut self)
        requires
            old(self).inv(),
        ensures
            final(self).inv(),
            final(self)@ == collapsed(old(self)@),
    {
        self.tree.set_all_expanded(false);
        proof {
            lemma_setting_keeps_inv(old(self)@.tree, false, self@.groups);
        }
        self.left = Some(0);
        self.right = Some(0);
        self.preview = None;
    }

    /// Expands all directories.
    pub fn expand_all(&mut self)
        requires
            old(self).inv(),
        ensures
            final(self).inv(),
            final(self)@ == expanded(old(self)@),
    {
        self.tree.set_all_expanded(true);
        proof {
            lemma_setting_keeps_inv(old(self)@.tree, true, self@.groups);
        }
        self.preview = None;
    }

    fn focus_row(&mut self, i: usize)
        requires
            old(self).inv(),
        ensures
            final(self).inv(),
            final(self)@ == focused(old(self)@, i),
    {
        self.left = Some(i);
        self.right = Some(0);
        self.preview = None;
        self.focus_right = false;
    }

    fn row_with(&self, path: &FilePath) -> (r: Option<usize>)
        requires
            self.inv(),
        ensures
            r == row_of(current_rows(self@), path@),
    {
        let flat = self.displayed();
        find_row(&flat, path)
    }

    /// Shows the copy that is highlighted in the tree.
    pub fn goto_file_directory(&mut self)
        requires
            old(self).inv(),
        ensures
            final(self).inv(),
            final(self)@ == shown_in_tree(old(self)@),
    {
        if !self.focus_right {
            return;
        }
        let path: FilePath = match self.target_path() {
            Some(p) => p,
            None => {
                return;
            },
        };
        if let Some(i) = self.row_with(&path) {
            self.focus_row(i);
            return;
        }
        let dir: FilePath = match path.parent() {
            Some(d) => d,
            None => {
                return;
            },
        };
        if self.row_with(&dir).is_some() {
            self.tree.toggle_expand(&dir);
            proof {
                lemma_toggling_keeps_inv(old(self)@.tree, dir@, self@.groups);
            }
            let at: usize = match self.row_with(&path) {
                Some(i) => i,
                None => match self.row_with(&dir) {
                    Some(i) => i,
                    None => 0,
                },
            };
            self.focus_row(at);
        }
    }

    fn filtered_groups(&self) -> (r: Vec<(usize, &Vec<FileInfo>)>)
        ensures
            numbered_view(r@) == filtered(self@.groups, self@.filter),
            is_ascii_text(self@.filter) && ascii_paths(self@.groups) ==> numbered_view(r@)
                == ascii_filtered(self@.groups, self@.filter),
    {
        let ghost gs = self@.groups;
        let ghost plain = is_ascii_text(self@.filter) && ascii_paths(self@.groups);
        let ghost all = numbered(gs);
        let ghost p = |g: (usize, Seq<FileView>)| matches_filter(g.1, self@.filter);
        let mut out: Vec<(usize, &Vec<FileInfo>)> = Vec::new();
        let every: bool = chars_of(self.filter.as_str()).len() == 0;
        let lower = to_lowercase(self.filter.as_str());
        let mut i: usize = 0;
        proof {
            lemma_filter_ends(all, p);
            assert(numbered_view(out@) =~= all.take(0).filter(p));
            assert(all.take(0) =~= Seq::<(usize, Seq<FileView>)>::empty());
        }
        while i < self.groups.len()
            invariant
                i <= self.groups@.len(),
                gs == self@.groups,
                all == numbered(gs),
                p == (|g: (usize, Seq<FileView>)| matches_filter(g.1, self@.filter)),
                every == (self@.filter.len() == 0),
                lower@ == lowercase_of(self@.filter),
                plain == (is_ascii_text(self@.filter) && ascii_paths(gs)),
                plain ==> lower@ == ascii_lowercase(self@.filter),
                plain && !every ==> forall|j: int|
                    0 <= j < i ==> p(#[trigger] all[j]) == ascii_match(all[j].1, self@.filter),
                numbered_view(out@) == if every {
                    all.take(i as int)
                } else {
                    all.take(i as int).filter(p)
                },
            decreases self.groups@.len() - i,
        {
            let ghost out0 = numbered_view(out@);
            proof {
                lemma_take_filter(all, p, i as int);
                assert(all.take(i + 1) =~= all.take(i as int).push(all[i as int]));
                assert(gs[i as int] == group_view(self.groups@[i as int]@));
                assert(all[i as int] == (i, gs[i as int]));
            }
            let ghost views = group_view(self.groups@[i as int]@);
            proof {
                if plain {
                    assert forall|k: int| 0 <= k < views.len() implies is_ascii_text(
                        shown_text((#[trigger] self.groups@[i as int]@[k])@.written),
                    ) by {
                        assert(gs[i as int][k] == self.groups@[i as int]@[k]@);
                    }
                }
            }
            if every || group_matches(&self.groups[i], &self.filter, &lower) {
                out.push((i, &self.groups[i]));
                assert(numbered_view(out@) =~= out0.push(all[i as int]));
            }
            i += 1;
        }
        proof {
            lemma_filter_ends(all, p);
            if plain {
                let q = |g: (usize, Seq<FileView>)|
                    self@.filter.len() == 0 || ascii_match(g.1, self@.filter);
                if every {
                    lemma_filter_all(all, q);
                } else {
                    lemma_filter_same(all, p, q);
                }
            }
        }
        out
    }

    /// Builds the tree anew from the groups that the filter lets through.
    pub fn rebuild_tree(&mut self)
        requires
            none_empty(old(self)@.groups),
            file_total(old(self)@.groups) <= usize::MAX,
            old(self).selected_for_delete.wf(),
            old(self)@.dialog matches DialogView::DeleteError { job, .. } ==> job.current
                < job.items.len(),
        ensures
            final(self).inv(),
            final(self)@ == rebuilt(old(self)@),
            is_ascii_text(final(self)@.filter) && ascii_paths(final(self)@.groups)
                ==> final(self)@.tree == tree_of(
                ascii_filtered(final(self)@.groups, final(self)@.filter),
                final(self)@.root,
            ),
    {
        let tree = build_tree_indexed(&self.filtered_groups(), &self.root);
        self.tree = tree;
        proof {
            lemma_built_tree_inv(self@.groups, self@.filter, self@.root);
            assert(self@.groups.len() == self.groups@.len());
            assert(self.groups.len() <= usize::MAX);
        }
        let len: usize = self.displayed().len();
        if len == 0 {
            self.left = None;
            self.right = None;
        } else {
            let at: usize = match self.left {
                Some(i) => i,
                None => 0,
            };
            self.left = Some(
                if at < len {
                    at
                } else {
                    len - 1
                },
            );
            self.right = Some(0);
        }
        self.preview = None;
        self.focus_right = false;
    }

    /// Sorts everything by the next mode.
    pub fn cycle_sort(&mut self)
        requires
            old(self).inv(),
        ensures
            final(self).inv(),
            final(self)@ == resorted(old(self)@),
    {
        self.sort_mode = match self.sort_mode {
            SortMode::Name => SortMode::Size,
            SortMode::Size => SortMode::Date,
            SortMode::Date => SortMode::Count,
            SortMode::Count => SortMode::Name,
        };
        sort_groups(&mut self.groups, self.sort_mode);
        proof {
            lemma_sorting_keeps_total(old(self)@.groups, self@.sort_mode);
        }
        self.rebuild_tree();
    }
}

} // verus!
