//! What holds of every tree of duplicate files.
use vstd::multiset::Multiset;
use vstd::prelude::*;

use crate::groups::file_total;
use crate::order::{lex, sorting, sorting_exists};
use crate::path::{full_join_text, path_strip, step_text, PathView, Step};
use crate::record::FileView;
use crate::text::{char_lt, lemma_text_order, lossy_text};
use crate::tree::{
    all_set, built_trees_are_well_formed, dir_node, file_count, file_node, files_in, group_added,
    has_child, inserted, insertion_keeps_well_formed, lemma_files_in_grows,
    lemma_group_added_well_formed, lemma_slot, lemma_slot_parts, names_ascend, node_ranks, numbered,
    rows, rows_of, rows_upto, sizes_in, slot, toggled, total_size, tree_of, tree_upto, well_formed,
    NodeView, SortMode,
};

verus! {

// ---------------------------------------------------------------------------
// What every node of a tree has
// ---------------------------------------------------------------------------

/// Every node of the tree has the property `p`.
pub open spec fn all_nodes(node: NodeView, p: spec_fn(NodeView) -> bool) -> bool
    decreases node,
{
    &&& p(node)
    &&& forall|i: int| 0 <= i < node.children.len() ==> all_nodes(#[trigger] node.children[i], p)
}

/// Whether a node has the property `p` does not rest on its children.
pub open spec fn childless(p: spec_fn(NodeView) -> bool) -> bool {
    forall|n: NodeView, c: Seq<NodeView>| #[trigger]
        p(n) ==> p(#[trigger] with_children(n, c))
}

/// A node with other children.
pub open spec fn with_children(node: NodeView, children: Seq<NodeView>) -> NodeView {
    NodeView { children, ..node }
}

/// New directories and the file have the property `p`.
pub open spec fn fresh_nodes(p: spec_fn(NodeView) -> bool, info: FileView, group: usize) -> bool {
    &&& forall|name: Seq<char>, path: PathView| p(#[trigger] dir_node(name, path))
    &&& forall|name: Seq<char>| p(#[trigger] file_node(name, info, group))
}

proof fn lemma_inserted_all_nodes(
    node: NodeView,
    steps: Seq<Step>,
    info: FileView,
    group: usize,
    p: spec_fn(NodeView) -> bool,
)
    requires
        all_nodes(node, p),
        childless(p),
        fresh_nodes(p, info, group),
    ensures
        all_nodes(inserted(node, steps, info, group), p),
    decreases steps.len(),
{
    if steps.len() > 0 {
        let name = step_text(steps[0]);
        let at = slot(node.children, name);
        let after = inserted(node, steps, info, group);
        lemma_slot_parts(node.children, name);
        assert(p(with_children(node, after.children)));
        assert(after == with_children(node, after.children));
        if !has_child(node.children, name) {
            let fresh = dir_node(name, full_join_text(node.full_path(), name));
            let child = if steps.len() == 1 {
                file_node(name, info, group)
            } else {
                inserted(fresh, steps.skip(1), info, group)
            };
            if steps.len() == 1 {
                assert(all_nodes(child, p));
            } else {
                assert(p(dir_node(name, full_join_text(node.full_path(), name))));
                assert(all_nodes(fresh, p));
                lemma_inserted_all_nodes(fresh, steps.skip(1), info, group, p);
            }
            assert forall|i: int| 0 <= i < after.children.len() implies all_nodes(
                #[trigger] after.children[i],
                p,
            ) by {
                if i < at {
                    assert(after.children[i] == node.children[i]);
                } else if i > at {
                    assert(after.children[i] == node.children[i - 1]);
                } else {
                    assert(after.children[i] == child);
                }
            }
        } else if steps.len() > 1 {
            lemma_inserted_all_nodes(node.children[at], steps.skip(1), info, group, p);
            assert forall|i: int| 0 <= i < after.children.len() implies all_nodes(
                #[trigger] after.children[i],
                p,
            ) by {
                if i != at {
                    assert(after.children[i] == node.children[i]);
                }
            }
        }
    }
}

/// Expanding or collapsing a directory keeps what holds of every node and does not rest on
/// whether directories are expanded.
pub proof fn toggling_keeps(node: NodeView, path: Seq<Step>, p: spec_fn(NodeView) -> bool)
    requires
        all_nodes(node, p),
        childless(p),
        forall|n: NodeView, e: bool| #[trigger] p(n) ==> p(#[trigger] with_expanded(n, e)),
    ensures
        all_nodes(toggled(node, path), p),
    decreases node,
{
    let after = toggled(node, path);
    if node.path == path && node.is_dir {
        assert(after == with_expanded(node, !node.expanded));
        assert forall|i: int| 0 <= i < after.children.len() implies all_nodes(
            #[trigger] after.children[i],
            p,
        ) by {
            assert(after.children[i] == node.children[i]);
        }
    } else {
        assert(after == with_children(node, after.children));
        assert forall|i: int| 0 <= i < after.children.len() implies all_nodes(
            #[trigger] after.children[i],
            p,
        ) by {
            toggling_keeps(node.children[i], path, p);
        }
    }
}

/// A node that is expanded or collapsed.
pub open spec fn with_expanded(node: NodeView, expanded: bool) -> NodeView {
    NodeView { expanded, ..node }
}

/// Expanding or collapsing all directories keeps what holds of every node and does not rest on
/// whether directories are expanded.
pub proof fn setting_all_keeps(node: NodeView, expanded: bool, p: spec_fn(NodeView) -> bool)
    requires
        all_nodes(node, p),
        childless(p),
        forall|n: NodeView, e: bool| #[trigger] p(n) ==> p(#[trigger] with_expanded(n, e)),
    ensures
        all_nodes(all_set(node, expanded), p),
    decreases node,
{
    let after = all_set(node, expanded);
    assert(after == with_expanded(with_children(node, after.children), after.expanded));
    assert forall|i: int| 0 <= i < after.children.len() implies all_nodes(
        #[trigger] after.children[i],
        p,
    ) by {
        setting_all_keeps(node.children[i], expanded, p);
    }
}

/// Every displayed row has what every node of the tree has.
pub proof fn rows_are_nodes(node: NodeView, depth: nat, mode: SortMode, p: spec_fn(NodeView) -> bool)
    requires
        all_nodes(node, p),
    ensures
        forall|i: int|
            0 <= i < rows_of(node, depth, mode).len() ==> all_nodes(
                (#[trigger] rows_of(node, depth, mode)[i]).1,
                p,
            ),
    decreases node, 0int,
{
    let all = rows_of(node, depth, mode);
    if node.is_dir && node.expanded {
        let below = rows_upto(node.children, depth + 1, mode, node.children.len() as int);
        lemma_rows_upto_are_nodes(
            node.children,
            depth + 1,
            mode,
            node.children.len() as int,
            p,
        );
        assert forall|i: int| 0 <= i < all.len() implies all_nodes((#[trigger] all[i]).1, p) by {
            if i > 0 {
                assert(all[i] == below[i - 1]);
            }
        }
    }
}

proof fn lemma_rows_upto_are_nodes(
    nodes: Seq<NodeView>,
    depth: nat,
    mode: SortMode,
    k: int,
    p: spec_fn(NodeView) -> bool,
)
    requires
        forall|i: int| 0 <= i < nodes.len() ==> all_nodes(#[trigger] nodes[i], p),
    ensures
        forall|i: int|
            0 <= i < rows_upto(nodes, depth, mode, k).len() ==> all_nodes(
                (#[trigger] rows_upto(nodes, depth, mode, k)[i]).1,
                p,
            ),
    decreases nodes, k,
{
    if k > 0 {
        let at = sorting(node_ranks(nodes, mode))[k - 1];
        let all = rows_upto(nodes, depth, mode, k);
        let before = rows_upto(nodes, depth, mode, k - 1);
        lemma_rows_upto_are_nodes(nodes, depth, mode, k - 1, p);
        if 0 <= at < nodes.len() {
            let own = rows_of(nodes[at], depth, mode);
            rows_are_nodes(nodes[at], depth, mode, p);
            assert forall|i: int| 0 <= i < all.len() implies all_nodes((#[trigger] all[i]).1, p) by {
                if i < before.len() {
                    assert(all[i] == before[i]);
                } else {
                    assert(all[i] == own[i - before.len()]);
                }
            }
        }
    }
}

/// Every displayed row of a tree has what every node of the tree has.
pub proof fn displayed_rows_are_nodes(tree: NodeView, mode: SortMode, p: spec_fn(NodeView) -> bool)
    requires
        all_nodes(tree, p),
    ensures
        forall|i: int|
            0 <= i < rows(tree, mode).len() ==> all_nodes((#[trigger] rows(tree, mode)[i]).1, p),
{
    lemma_rows_upto_are_nodes(tree.children, 0, mode, tree.children.len() as int, p);
}

// ---------------------------------------------------------------------------
// Files and their groups
// ---------------------------------------------------------------------------

/// A node without a file is a directory; one with a file stands for a file of the group that it
/// names, at that file's path.
pub open spec fn labelled(groups: Seq<(usize, Seq<FileView>)>) -> spec_fn(NodeView) -> bool {
    |n: NodeView|
        match (n.file_info, n.group_index) {
            (Some(f), Some(g)) => !n.is_dir && n.path == f.path && in_group(groups, f, g),
            (None, None) => n.is_dir,
            _ => false,
        }
}

/// The file `f` is in a group with the number `g`.
pub open spec fn in_group(groups: Seq<(usize, Seq<FileView>)>, f: FileView, g: usize) -> bool {
    exists|k: int| 0 <= k < groups.len() && (#[trigger] groups[k]).0 == g && groups[k].1.contains(f)
}

proof fn lemma_group_added_labelled(
    tree: NodeView,
    root: Seq<Step>,
    groups: Seq<(usize, Seq<FileView>)>,
    n: int,
    k: int,
)
    requires
        0 <= n < groups.len(),
        all_nodes(tree, labelled(groups)),
    ensures
        all_nodes(
            group_added(tree, root, groups[n].1, groups[n].0, k),
            labelled(groups),
        ),
    decreases k,
{
    let (number, files) = groups[n];
    let p = labelled(groups);
    if 0 < k <= files.len() {
        lemma_group_added_labelled(tree, root, groups, n, k - 1);
        if let Some(rel) = path_strip(files[k - 1].path, root) {
            assert(files.contains(files[k - 1]));
            assert(in_group(groups, files[k - 1], number));
            assert(fresh_nodes(p, files[k - 1], number));
            lemma_inserted_all_nodes(
                group_added(tree, root, files, number, k - 1),
                rel,
                files[k - 1],
                number,
                p,
            );
        }
    }
}

proof fn lemma_tree_upto_labelled(groups: Seq<(usize, Seq<FileView>)>, root: PathView, k: int)
    ensures
        all_nodes(tree_upto(groups, root, k), labelled(groups)),
    decreases k,
{
    if 0 < k <= groups.len() {
        lemma_tree_upto_labelled(groups, root, k - 1);
        lemma_group_added_labelled(
            tree_upto(groups, root, k - 1),
            root.steps,
            groups,
            k - 1,
            groups[k - 1].1.len() as int,
        );
    }
}

/// Every file node of a tree that was built stands for a file of the group that it names.
pub proof fn built_trees_are_labelled(groups: Seq<(usize, Seq<FileView>)>, root: PathView)
    ensures
        all_nodes(tree_of(groups, root), labelled(groups)),
{
    lemma_tree_upto_labelled(groups, root, groups.len() as int);
}

// ---------------------------------------------------------------------------
// Totals
// ---------------------------------------------------------------------------

proof fn lemma_totals_insert(children: Seq<NodeView>, at: int, child: NodeView, k: int)
    requires
        0 <= at <= children.len(),
        0 <= k <= children.len() + 1,
    ensures
        k <= at ==> files_in(children.insert(at, child), k) == files_in(children, k),
        k <= at ==> sizes_in(children.insert(at, child), k) == sizes_in(children, k),
        k > at ==> files_in(children.insert(at, child), k) == files_in(children, k - 1)
            + file_count(child),
        k > at ==> sizes_in(children.insert(at, child), k) == sizes_in(children, k - 1)
            + total_size(child),
    decreases k,
{
    if k > 0 {
        lemma_totals_insert(children, at, child, k - 1);
    }
}

proof fn lemma_totals_update(children: Seq<NodeView>, at: int, child: NodeView, k: int)
    requires
        0 <= at < children.len(),
        0 <= k <= children.len(),
    ensures
        k <= at ==> files_in(children.update(at, child), k) == files_in(children, k),
        k <= at ==> sizes_in(children.update(at, child), k) == sizes_in(children, k),
        k > at ==> files_in(children.update(at, child), k) + file_count(children[at]) == files_in(
            children,
            k,
        ) + file_count(child),
        k > at ==> sizes_in(children.update(at, child), k) + total_size(children[at]) == sizes_in(
            children,
            k,
        ) + total_size(child),
    decreases k,
{
    if k > 0 {
        lemma_totals_update(children, at, child, k - 1);
    }
}

/// Inserting a file adds at most one file, and at most its size.
pub proof fn insertion_adds_at_most_one(
    node: NodeView,
    steps: Seq<Step>,
    info: FileView,
    group: usize,
)
    ensures
        file_count(inserted(node, steps, info, group)) <= file_count(node) + 1,
        total_size(inserted(node, steps, info, group)) <= total_size(node) + info.size,
    decreases steps.len(),
{
    if steps.len() > 0 {
        let name = step_text(steps[0]);
        let at = slot(node.children, name);
        let len = node.children.len() as int;
        lemma_slot_parts(node.children, name);
        if !has_child(node.children, name) {
            let fresh = dir_node(name, full_join_text(node.full_path(), name));
            let child = if steps.len() == 1 {
                file_node(name, info, group)
            } else {
                inserted(fresh, steps.skip(1), info, group)
            };
            if steps.len() > 1 {
                insertion_adds_at_most_one(fresh, steps.skip(1), info, group);
            }
            lemma_totals_insert(node.children, at, child, len + 1);
        } else if steps.len() > 1 {
            let child = node.children[at];
            insertion_adds_at_most_one(child, steps.skip(1), info, group);
            lemma_totals_update(
                node.children,
                at,
                inserted(child, steps.skip(1), info, group),
                len,
            );
        }
    }
}

/// How many files some groups list.
pub open spec fn listed_files(groups: Seq<(usize, Seq<FileView>)>) -> nat
    decreases groups.len(),
{
    if groups.len() == 0 {
        0
    } else {
        listed_files(groups.drop_last()) + groups.last().1.len()
    }
}

/// The sizes of the first `k` files together.
pub open spec fn group_sizes(files: Seq<FileView>, k: int) -> nat
    decreases k,
{
    if 0 < k <= files.len() {
        group_sizes(files, k - 1) + files[k - 1].size as nat
    } else {
        0
    }
}

/// The sizes of all files that some groups list.
pub open spec fn listed_sizes(groups: Seq<(usize, Seq<FileView>)>) -> nat
    decreases groups.len(),
{
    if groups.len() == 0 {
        0
    } else {
        listed_sizes(groups.drop_last()) + group_sizes(
            groups.last().1,
            groups.last().1.len() as int,
        )
    }
}

proof fn lemma_group_added_totals(
    tree: NodeView,
    root: Seq<Step>,
    files: Seq<FileView>,
    group: usize,
    k: int,
)
    requires
        0 <= k <= files.len(),
    ensures
        file_count(group_added(tree, root, files, group, k)) <= file_count(tree) + k,
        total_size(group_added(tree, root, files, group, k)) <= total_size(tree) + group_sizes(
            files,
            k,
        ),
    decreases k,
{
    if k > 0 {
        lemma_group_added_totals(tree, root, files, group, k - 1);
        if let Some(rel) = path_strip(files[k - 1].path, root) {
            insertion_adds_at_most_one(
                group_added(tree, root, files, group, k - 1),
                rel,
                files[k - 1],
                group,
            );
        }
    }
}

proof fn lemma_tree_upto_totals(groups: Seq<(usize, Seq<FileView>)>, root: PathView, k: int)
    requires
        0 <= k <= groups.len(),
    ensures
        file_count(tree_upto(groups, root, k)) <= listed_files(groups.take(k)),
        total_size(tree_upto(groups, root, k)) <= listed_sizes(groups.take(k)),
    decreases k,
{
    if k > 0 {
        let (number, files) = groups[k - 1];
        lemma_tree_upto_totals(groups, root, k - 1);
        lemma_group_added_totals(
            tree_upto(groups, root, k - 1),
            root.steps,
            files,
            number,
            files.len() as int,
        );
        assert(groups.take(k).drop_last() =~= groups.take(k - 1));
        assert(groups.take(k).last() == groups[k - 1]);
    }
}

/// A tree that was built holds no more files, and no more bytes, than its groups list.
pub proof fn built_trees_hold_no_more(groups: Seq<(usize, Seq<FileView>)>, root: PathView)
    ensures
        file_count(tree_of(groups, root)) <= listed_files(groups),
        total_size(tree_of(groups, root)) <= listed_sizes(groups),
{
    lemma_tree_upto_totals(groups, root, groups.len() as int);
    assert(groups.take(groups.len() as int) =~= groups);
}

/// Numbered groups list the files of the groups.
pub proof fn numbered_groups_list_all(groups: Seq<Seq<FileView>>)
    ensures
        listed_files(numbered(groups)) == file_total(groups),
    decreases groups.len(),
{
    if groups.len() > 0 {
        numbered_groups_list_all(groups.drop_last());
        assert(numbered(groups).drop_last() =~= numbered(groups.drop_last()));
    }
}

/// Some of the groups list no more files than all of them.
pub proof fn some_groups_list_no_more(
    groups: Seq<(usize, Seq<FileView>)>,
    p: spec_fn((usize, Seq<FileView>)) -> bool,
)
    ensures
        listed_files(groups.filter(p)) <= listed_files(groups),
    decreases groups.len(),
{
    reveal(Seq::filter);
    if groups.len() > 0 {
        let rest = groups.drop_last().filter(p);
        some_groups_list_no_more(groups.drop_last(), p);
        if p(groups.last()) {
            assert(rest.push(groups.last()).drop_last() =~= rest);
        }
    }
}

proof fn lemma_totals_pointwise(a: Seq<NodeView>, b: Seq<NodeView>, k: int)
    requires
        a.len() == b.len(),
        0 <= k <= a.len(),
        forall|i: int|
            #![trigger a[i]]
            #![trigger b[i]]
            0 <= i < a.len() ==> file_count(a[i]) == file_count(b[i]) && total_size(a[i])
                == total_size(b[i]),
    ensures
        files_in(a, k) == files_in(b, k),
        sizes_in(a, k) == sizes_in(b, k),
    decreases k,
{
    if k > 0 {
        lemma_totals_pointwise(a, b, k - 1);
        assert(file_count(a[k - 1]) == file_count(b[k - 1]));
    }
}

/// Expanding or collapsing a directory leaves the totals of a tree as they are.
pub proof fn toggling_keeps_totals(node: NodeView, path: Seq<Step>)
    ensures
        file_count(toggled(node, path)) == file_count(node),
        total_size(toggled(node, path)) == total_size(node),
    decreases node,
{
    let after = toggled(node, path);
    if !(node.path == path && node.is_dir) {
        assert forall|i: int|
            #![trigger after.children[i]]
            #![trigger node.children[i]]
            0 <= i < node.children.len() implies file_count(after.children[i]) == file_count(
            node.children[i],
        ) && total_size(after.children[i]) == total_size(node.children[i]) by {
            toggling_keeps_totals(node.children[i], path);
        }
        lemma_totals_pointwise(after.children, node.children, node.children.len() as int);
    }
}

/// Expanding or collapsing all directories leaves the totals of a tree as they are.
pub proof fn setting_all_keeps_totals(node: NodeView, expanded: bool)
    ensures
        file_count(all_set(node, expanded)) == file_count(node),
        total_size(all_set(node, expanded)) == total_size(node),
    decreases node,
{
    let after = all_set(node, expanded);
    assert forall|i: int|
        #![trigger after.children[i]]
        #![trigger node.children[i]]
        0 <= i < node.children.len() implies file_count(after.children[i]) == file_count(
        node.children[i],
    ) && total_size(after.children[i]) == total_size(node.children[i]) by {
        setting_all_keeps_totals(node.children[i], expanded);
    }
    lemma_totals_pointwise(after.children, node.children, node.children.len() as int);
}

// ---------------------------------------------------------------------------
// Expanding and collapsing
// ---------------------------------------------------------------------------

/// No directory below the node, or the node itself, has that path.
pub open spec fn has_no_dir_at(node: NodeView, path: Seq<Step>) -> bool {
    all_nodes(node, |n: NodeView| !(n.is_dir && n.path == path))
}

/// No directory with that path lies in another with that path.
pub open spec fn dirs_at_are_apart(node: NodeView, path: Seq<Step>) -> bool
    decreases node,
{
    forall|i: int|
        0 <= i < node.children.len() ==> if node.is_dir && node.path == path {
            has_no_dir_at(#[trigger] node.children[i], path)
        } else {
            dirs_at_are_apart(node.children[i], path)
        }
}

/// Two trees differ in nothing but that each directory with the given path is expanded in one and
/// collapsed in the other.
pub open spec fn differ_in_one_flag(a: NodeView, b: NodeView, path: Seq<Step>) -> bool
    decreases a,
{
    &&& b == with_expanded(with_children(a, b.children), b.expanded)
    &&& b.expanded == if a.is_dir && a.path == path {
        !a.expanded
    } else {
        a.expanded
    }
    &&& b.children.len() == a.children.len()
    &&& forall|i: int|
        0 <= i < a.children.len() ==> differ_in_one_flag(
            #[trigger] a.children[i],
            b.children[i],
            path,
        )
}

/// Toggling a path that no directory has, be it that of a file, changes nothing.
pub proof fn toggling_no_directory_changes_nothing(node: NodeView, path: Seq<Step>)
    requires
        has_no_dir_at(node, path),
    ensures
        toggled(node, path) == node,
    decreases node,
{
    let after = toggled(node, path);
    assert forall|i: int| 0 <= i < node.children.len() implies #[trigger] after.children[i]
        == node.children[i] by {
        assert(all_nodes(node.children[i], |n: NodeView| !(n.is_dir && n.path == path)));
        toggling_no_directory_changes_nothing(node.children[i], path);
    }
    assert(after.children =~= node.children);
}

proof fn lemma_unchanged(node: NodeView, path: Seq<Step>)
    requires
        has_no_dir_at(node, path),
    ensures
        differ_in_one_flag(node, node, path),
    decreases node,
{
    assert forall|i: int| 0 <= i < node.children.len() implies differ_in_one_flag(
        #[trigger] node.children[i],
        node.children[i],
        path,
    ) by {
        assert(all_nodes(node.children[i], |n: NodeView| !(n.is_dir && n.path == path)));
        lemma_unchanged(node.children[i], path);
    }
}

/// Toggling a directory expands or collapses it and changes nothing else, where no directory lies
/// in another with the same path.
pub proof fn toggling_changes_one_flag(node: NodeView, path: Seq<Step>)
    requires
        dirs_at_are_apart(node, path),
    ensures
        differ_in_one_flag(node, toggled(node, path), path),
    decreases node,
{
    let after = toggled(node, path);
    assert forall|i: int| 0 <= i < node.children.len() implies differ_in_one_flag(
        #[trigger] node.children[i],
        after.children[i],
        path,
    ) by {
        if node.is_dir && node.path == path {
            assert(has_no_dir_at(node.children[i], path));
            lemma_unchanged(node.children[i], path);
        } else {
            assert(after.children[i] == toggled(node.children[i], path));
            toggling_changes_one_flag(node.children[i], path);
        }
    }
}

/// Toggling the same directory twice restores the tree.
pub proof fn toggling_twice_restores(node: NodeView, path: Seq<Step>)
    ensures
        toggled(toggled(node, path), path) == node,
    decreases node,
{
    let once = toggled(node, path);
    let twice = toggled(once, path);
    if !(node.path == path && node.is_dir) {
        assert forall|i: int| 0 <= i < node.children.len() implies #[trigger] twice.children[i]
            == node.children[i] by {
            toggling_twice_restores(node.children[i], path);
            assert(once.children[i] == toggled(node.children[i], path));
        }
        assert(twice.children =~= node.children);
    }
}

/// Of two settings of all directories the last one counts.
pub proof fn last_setting_counts(node: NodeView, first: bool, last: bool)
    ensures
        all_set(all_set(node, first), last) == all_set(node, last),
    decreases node,
{
    let once = all_set(node, first);
    let twice = all_set(once, last);
    assert forall|i: int| 0 <= i < node.children.len() implies #[trigger] twice.children[i]
        == all_set(node.children[i], last) by {
        last_setting_counts(node.children[i], first, last);
        assert(once.children[i] == all_set(node.children[i], first));
    }
    assert(twice.children =~= all_set(node, last).children);
}

proof fn lemma_rows_len(nodes: Seq<NodeView>, depth: nat, mode: SortMode, k: int)
    requires
        0 <= k <= nodes.len(),
        forall|i: int| 0 <= i < nodes.len() ==> !((#[trigger] nodes[i]).is_dir && nodes[i].expanded),
    ensures
        rows_upto(nodes, depth, mode, k).len() == k,
        forall|i: int| 0 <= i < k ==> (#[trigger] rows_upto(nodes, depth, mode, k)[i]).0 == depth,
    decreases k,
{
    sorting_exists(node_ranks(nodes, mode));
    if k > 0 {
        let at = sorting(node_ranks(nodes, mode))[k - 1];
        lemma_rows_len(nodes, depth, mode, k - 1);
        let all = rows_upto(nodes, depth, mode, k);
        let before = rows_upto(nodes, depth, mode, k - 1);
        assert(rows_of(nodes[at], depth, mode) =~= seq![(depth, nodes[at])]);
        assert forall|i: int| 0 <= i < k implies (#[trigger] all[i]).0 == depth by {
            if i < k - 1 {
                assert(all[i] == before[i]);
            }
        }
    }
}

/// Once all directories are collapsed, only what lies directly below the root is displayed.
pub proof fn collapsed_tree_shows_top_level(tree: NodeView, mode: SortMode)
    ensures
        rows(all_set(tree, false), mode).len() == tree.children.len(),
        forall|i: int|
            0 <= i < tree.children.len() ==> (#[trigger] rows(all_set(tree, false), mode)[i]).0
                == 0,
{
    reveal_with_fuel(all_set, 2);
    let nodes = all_set(tree, false).children;
    lemma_rows_len(nodes, 0, mode, nodes.len() as int);
}

proof fn lemma_rows_contain(nodes: Seq<NodeView>, depth: nat, mode: SortMode, r: int, k: int)
    requires
        0 <= r < k <= nodes.len(),
    ensures
        0 <= sorting(node_ranks(nodes, mode))[r] < nodes.len(),
        rows_upto(nodes, depth, mode, k).contains(
            (depth, nodes[sorting(node_ranks(nodes, mode))[r]]),
        ),
    decreases k,
{
    sorting_exists(node_ranks(nodes, mode));
    let o = sorting(node_ranks(nodes, mode));
    let all = rows_upto(nodes, depth, mode, k);
    let before = rows_upto(nodes, depth, mode, k - 1);
    let own = rows_of(nodes[o[k - 1]], depth, mode);
    assert(0 <= o[k - 1] < nodes.len());
    assert(all == before + own);
    if r < k - 1 {
        lemma_rows_contain(nodes, depth, mode, r, k - 1);
        let i = choose|i: int| 0 <= i < before.len() && before[i] == (depth, nodes[o[r]]);
        assert(all[i] == before[i]);
    } else {
        assert(own[0] == (depth, nodes[o[r]]));
        assert(all[before.len() as int] == own[0]);
    }
}

/// Every child of the root is displayed, in whatever order.
pub proof fn every_child_is_displayed(tree: NodeView, mode: SortMode, i: int)
    requires
        0 <= i < tree.children.len(),
    ensures
        rows(tree, mode).contains((0nat, tree.children[i])),
{
    sorting_exists(node_ranks(tree.children, mode));
    let o = sorting(node_ranks(tree.children, mode));
    assert(o.contains(i));
    let r = choose|r: int| 0 <= r < o.len() && o[r] == i;
    lemma_rows_contain(tree.children, 0, mode, r, tree.children.len() as int);
}

/// Below an expanded directory every one of its children is displayed, one level deeper.
pub proof fn expanded_directory_shows_children(node: NodeView, depth: nat, mode: SortMode, i: int)
    requires
        node.is_dir,
        node.expanded,
        0 <= i < node.children.len(),
    ensures
        rows_of(node, depth, mode).contains((depth + 1, node.children[i])),
{
    sorting_exists(node_ranks(node.children, mode));
    let o = sorting(node_ranks(node.children, mode));
    assert(o.contains(i));
    let r = choose|r: int| 0 <= r < o.len() && o[r] == i;
    let below = rows_upto(node.children, depth + 1, mode, node.children.len() as int);
    lemma_rows_contain(node.children, depth + 1, mode, r, node.children.len() as int);
    let j = choose|j: int| 0 <= j < below.len() && below[j] == (depth + 1, node.children[i]);
    assert(rows_of(node, depth, mode)[j + 1] == below[j]);
}

// ---------------------------------------------------------------------------
// Totals of displayed rows
// ---------------------------------------------------------------------------

proof fn lemma_rows_of_hold(node: NodeView, depth: nat, mode: SortMode, bound: nat)
    requires
        file_count(node) <= bound,
    ensures
        forall|i: int|
            0 <= i < rows_of(node, depth, mode).len() ==> file_count(
                (#[trigger] rows_of(node, depth, mode)[i]).1,
            ) <= bound,
    decreases node, 0int,
{
    let all = rows_of(node, depth, mode);
    if node.is_dir && node.expanded {
        let len = node.children.len() as int;
        let below = rows_upto(node.children, depth + 1, mode, len);
        lemma_rows_upto_hold(node.children, depth + 1, mode, len, bound);
        assert forall|i: int| 0 <= i < all.len() implies file_count((#[trigger] all[i]).1)
            <= bound by {
            if i > 0 {
                assert(all[i] == below[i - 1]);
            }
        }
    }
}

proof fn lemma_rows_upto_hold(
    nodes: Seq<NodeView>,
    depth: nat,
    mode: SortMode,
    k: int,
    bound: nat,
)
    requires
        files_in(nodes, nodes.len() as int) <= bound,
    ensures
        forall|i: int|
            0 <= i < rows_upto(nodes, depth, mode, k).len() ==> file_count(
                (#[trigger] rows_upto(nodes, depth, mode, k)[i]).1,
            ) <= bound,
    decreases nodes, k,
{
    if k > 0 {
        let at = sorting(node_ranks(nodes, mode))[k - 1];
        let all = rows_upto(nodes, depth, mode, k);
        let before = rows_upto(nodes, depth, mode, k - 1);
        lemma_rows_upto_hold(nodes, depth, mode, k - 1, bound);
        if 0 <= at < nodes.len() {
            let own = rows_of(nodes[at], depth, mode);
            lemma_files_in_grows(nodes, at, nodes.len() as int);
            lemma_rows_of_hold(nodes[at], depth, mode, bound);
            assert forall|i: int| 0 <= i < all.len() implies file_count((#[trigger] all[i]).1)
                <= bound by {
                if i < before.len() {
                    assert(all[i] == before[i]);
                } else {
                    assert(all[i] == own[i - before.len()]);
                }
            }
        }
    }
}

/// No displayed row has more files than the tree.
pub proof fn rows_hold_no_more(tree: NodeView, mode: SortMode)
    requires
        tree.is_dir,
    ensures
        forall|i: int|
            0 <= i < rows(tree, mode).len() ==> file_count((#[trigger] rows(tree, mode)[i]).1)
                <= file_count(tree),
{
    lemma_rows_upto_hold(tree.children, 0, mode, tree.children.len() as int, file_count(tree));
}

// ---------------------------------------------------------------------------
// What is found in a tree
// ---------------------------------------------------------------------------

/// The node at the end of the given steps.
pub open spec fn lookup(node: NodeView, steps: Seq<Step>) -> Option<NodeView>
    decreases steps.len(),
{
    if steps.len() == 0 {
        Some(node)
    } else {
        let name = step_text(steps[0]);
        if has_child(node.children, name) {
            lookup(node.children[slot(node.children, name)], steps.skip(1))
        } else {
            None
        }
    }
}

proof fn lemma_slot_of_child(children: Seq<NodeView>, k: int)
    requires
        names_ascend(children),
        0 <= k < children.len(),
    ensures
        slot(children, children[k].name) == k,
        has_child(children, children[k].name),
{
    let name = children[k].name;
    lemma_text_order();
    let texts = lex(char_lt());
    assert(!texts(name, name));
    lemma_slot(children, name, k);
}

/// A file that is inserted where nothing was is found there.
pub proof fn inserted_file_is_found(node: NodeView, steps: Seq<Step>, info: FileView, group: usize)
    requires
        well_formed(node),
        steps.len() > 0,
        lookup(node, steps) is None,
    ensures
        lookup(inserted(node, steps, info, group), steps) == Some(
            file_node(step_text(steps.last()), info, group),
        ),
    decreases steps.len(),
{
    let name = step_text(steps[0]);
    let at = slot(node.children, name);
    let rest = steps.skip(1);
    let after = inserted(node, steps, info, group);
    insertion_keeps_well_formed(node, steps, info, group);
    lemma_slot_parts(node.children, name);
    if has_child(node.children, name) {
        if steps.len() == 1 {
            assert(lookup(node.children[at], rest) is Some);
        } else {
            let child = node.children[at];
            insertion_keeps_well_formed(child, rest, info, group);
            inserted_file_is_found(child, rest, info, group);
            lemma_slot_of_child(after.children, at);
            assert(rest.last() == steps.last());
        }
    } else if steps.len() == 1 {
        assert(after.children[at] == file_node(name, info, group));
        lemma_slot_of_child(after.children, at);
        assert(lookup(after.children[at], rest) == Some(after.children[at]));
    } else {
        let fresh = dir_node(name, full_join_text(node.full_path(), name));
        insertion_keeps_well_formed(fresh, rest, info, group);
        assert(lookup(fresh, rest) is None) by {
            lemma_slot_parts(fresh.children, step_text(rest[0]));
        }
        inserted_file_is_found(fresh, rest, info, group);
        lemma_slot_of_child(after.children, at);
        assert(rest.last() == steps.last());
    }
}

/// Inserting a file keeps what was there: each node stays in its place, but for its children.
pub proof fn insertion_keeps_what_was_there(
    node: NodeView,
    steps: Seq<Step>,
    info: FileView,
    group: usize,
    other: Seq<Step>,
)
    requires
        well_formed(node),
        lookup(node, other) is Some,
    ensures
        lookup(inserted(node, steps, info, group), other) is Some,
        with_children(lookup(inserted(node, steps, info, group), other)->0, seq![])
            == with_children(lookup(node, other)->0, seq![]),
    decreases steps.len(),
{
    let after = inserted(node, steps, info, group);
    insertion_keeps_well_formed(node, steps, info, group);
    if other.len() > 0 && steps.len() > 0 {
        let name = step_text(steps[0]);
        let at = slot(node.children, name);
        let sought = step_text(other[0]);
        let k = slot(node.children, sought);
        let rest = steps.skip(1);
        lemma_slot_parts(node.children, name);
        lemma_slot_parts(node.children, sought);
        if !has_child(node.children, name) {
            let m = if k < at {
                k
            } else {
                k + 1
            };
            assert(after.children[m] == node.children[k]);
            lemma_slot_of_child(after.children, m);
        } else if steps.len() > 1 {
            let child = node.children[at];
            insertion_keeps_well_formed(child, rest, info, group);
            lemma_slot_of_child(after.children, k);
            if k == at {
                insertion_keeps_what_was_there(child, rest, info, group, other.skip(1));
            } else {
                assert(after.children[k] == node.children[k]);
            }
        }
    }
}

proof fn lemma_group_keeps(
    tree: NodeView,
    root: Seq<Step>,
    files: Seq<FileView>,
    group: usize,
    k: int,
    other: Seq<Step>,
)
    requires
        well_formed(tree),
        lookup(tree, other) is Some,
    ensures
        lookup(group_added(tree, root, files, group, k), other) is Some,
    decreases k,
{
    if 0 < k <= files.len() {
        let before = group_added(tree, root, files, group, k - 1);
        lemma_group_keeps(tree, root, files, group, k - 1, other);
        lemma_group_added_well_formed(tree, root, files, group, k - 1);
        if let Some(rel) = path_strip(files[k - 1].path, root) {
            insertion_keeps_what_was_there(before, rel, files[k - 1], group, other);
        }
    }
}

proof fn lemma_group_holds(
    tree: NodeView,
    root: Seq<Step>,
    files: Seq<FileView>,
    group: usize,
    k: int,
    i: int,
    rel: Seq<Step>,
)
    requires
        well_formed(tree),
        0 <= i < k <= files.len(),
        path_strip(files[i].path, root) == Some(rel),
    ensures
        lookup(group_added(tree, root, files, group, k), rel) is Some,
    decreases k,
{
    let before = group_added(tree, root, files, group, k - 1);
    lemma_group_added_well_formed(tree, root, files, group, k - 1);
    if i < k - 1 {
        lemma_group_holds(tree, root, files, group, k - 1, i, rel);
        if let Some(last) = path_strip(files[k - 1].path, root) {
            insertion_keeps_what_was_there(before, last, files[k - 1], group, rel);
        }
    } else if lookup(before, rel) is Some {
        insertion_keeps_what_was_there(before, rel, files[i], group, rel);
    } else {
        inserted_file_is_found(before, rel, files[i], group);
    }
}

proof fn lemma_tree_holds(
    groups: Seq<(usize, Seq<FileView>)>,
    root: PathView,
    k: int,
    g: int,
    i: int,
    rel: Seq<Step>,
)
    requires
        0 <= g < k <= groups.len(),
        0 <= i < groups[g].1.len(),
        path_strip(groups[g].1[i].path, root.steps) == Some(rel),
    ensures
        lookup(tree_upto(groups, root, k), rel) is Some,
    decreases k,
{
    let (number, files) = groups[k - 1];
    let before = tree_upto(groups, root, k - 1);
    let len = files.len() as int;
    built_trees_are_well_formed(groups, root, k - 1);
    if g < k - 1 {
        lemma_tree_holds(groups, root, k - 1, g, i, rel);
        lemma_group_keeps(before, root.steps, files, number, len, rel);
    } else {
        lemma_group_holds(before, root.steps, files, number, len, i, rel);
    }
}

/// Every file of the groups that lies below the root has its place in the tree.
pub proof fn every_file_is_in_the_tree(
    groups: Seq<(usize, Seq<FileView>)>,
    root: PathView,
    g: int,
    i: int,
    rel: Seq<Step>,
)
    requires
        0 <= g < groups.len(),
        0 <= i < groups[g].1.len(),
        path_strip(groups[g].1[i].path, root.steps) == Some(rel),
    ensures
        lookup(tree_of(groups, root), rel) is Some,
{
    lemma_tree_holds(groups, root, groups.len() as int, g, i, rel);
}

/// All directories on the way along the given steps, down to the last but one, are expanded.
pub open spec fn way_is_open(node: NodeView, steps: Seq<Step>) -> bool
    decreases steps.len(),
{
    steps.len() <= 1 || {
        let name = step_text(steps[0]);
        let child = node.children[slot(node.children, name)];
        has_child(node.children, name) && child.is_dir && child.expanded && way_is_open(
            child,
            steps.skip(1),
        )
    }
}

proof fn lemma_rows_below(
    nodes: Seq<NodeView>,
    depth: nat,
    mode: SortMode,
    r: int,
    k: int,
    row: (nat, NodeView),
)
    requires
        0 <= r < k <= nodes.len(),
        rows_of(nodes[sorting(node_ranks(nodes, mode))[r]], depth, mode).contains(row),
    ensures
        rows_upto(nodes, depth, mode, k).contains(row),
    decreases k,
{
    sorting_exists(node_ranks(nodes, mode));
    let o = sorting(node_ranks(nodes, mode));
    let all = rows_upto(nodes, depth, mode, k);
    let before = rows_upto(nodes, depth, mode, k - 1);
    let own = rows_of(nodes[o[k - 1]], depth, mode);
    assert(0 <= o[k - 1] < nodes.len());
    assert(all == before + own);
    if r < k - 1 {
        lemma_rows_below(nodes, depth, mode, r, k - 1, row);
        let i = choose|i: int| 0 <= i < before.len() && before[i] == row;
        assert(all[i] == row);
    } else {
        let i = choose|i: int| 0 <= i < own.len() && own[i] == row;
        assert(all[before.len() + i] == row);
    }
}

proof fn lemma_open_way(node: NodeView, depth: nat, steps: Seq<Step>, mode: SortMode)
    requires
        steps.len() > 0,
        lookup(node, steps) is Some,
        way_is_open(node, steps),
        well_formed(node),
    ensures
        rows_upto(node.children, depth, mode, node.children.len() as int).contains(
            ((depth + steps.len() - 1) as nat, lookup(node, steps)->0),
        ),
    decreases steps.len(),
{
    let nodes = node.children;
    let name = step_text(steps[0]);
    let at = slot(nodes, name);
    lemma_slot_parts(nodes, name);
    let child = nodes[at];
    let row = ((depth + steps.len() - 1) as nat, lookup(node, steps)->0);
    let own = rows_of(child, depth, mode);
    sorting_exists(node_ranks(nodes, mode));
    let o = sorting(node_ranks(nodes, mode));
    assert(o.contains(at));
    let r = choose|r: int| 0 <= r < o.len() && o[r] == at;
    if steps.len() == 1 {
        assert(lookup(child, steps.skip(1)) == Some(child));
        assert(own[0] == row);
    } else {
        lemma_open_way(child, depth + 1, steps.skip(1), mode);
        let below = rows_upto(child.children, depth + 1, mode, child.children.len() as int);
        let i = choose|i: int| 0 <= i < below.len() && below[i] == row;
        assert(own[i + 1] == row);
    }
    lemma_rows_below(nodes, depth, mode, r, nodes.len() as int, row);
}

/// Whatever is in a tree is displayed, as deep as it lies, where all directories on the way to it
/// are expanded.
pub proof fn open_ways_are_displayed(tree: NodeView, steps: Seq<Step>, mode: SortMode)
    requires
        well_formed(tree),
        steps.len() > 0,
        lookup(tree, steps) is Some,
        way_is_open(tree, steps),
    ensures
        rows(tree, mode).contains(((steps.len() - 1) as nat, lookup(tree, steps)->0)),
{
    lemma_open_way(tree, 0, steps, mode);
}

// ---------------------------------------------------------------------------
// Which rows there are, whatever their order
// ---------------------------------------------------------------------------

/// The rows that a node at some depth takes up, in no order.
pub open spec fn row_bag(node: NodeView, depth: nat) -> Multiset<(nat, NodeView)>
    decreases node, 0int,
{
    if node.is_dir && node.expanded {
        Multiset::singleton((depth, node)).add(
            rows_in(node.children, depth + 1, node.children.len() as int),
        )
    } else {
        Multiset::singleton((depth, node))
    }
}

/// The rows that the first `k` of some nodes take up, in no order.
pub open spec fn rows_in(nodes: Seq<NodeView>, depth: nat, k: int) -> Multiset<(nat, NodeView)>
    decreases nodes, k,
{
    if 0 < k <= nodes.len() {
        rows_in(nodes, depth, k - 1).add(row_bag(nodes[k - 1], depth))
    } else {
        Multiset::empty()
    }
}

/// The rows that the nodes at some positions take up, in no order.
spec fn rows_at(nodes: Seq<NodeView>, depth: nat, at: Seq<int>) -> Multiset<(nat, NodeView)>
    decreases at.len(),
{
    if at.len() == 0 {
        Multiset::empty()
    } else {
        rows_at(nodes, depth, at.drop_last()).add(row_bag(nodes[at.last()], depth))
    }
}

proof fn lemma_rows_at_without(nodes: Seq<NodeView>, depth: nat, at: Seq<int>, r: int)
    requires
        0 <= r < at.len(),
    ensures
        rows_at(nodes, depth, at) == rows_at(nodes, depth, at.remove(r)).add(
            row_bag(nodes[at[r]], depth),
        ),
    decreases at.len(),
{
    broadcast use vstd::multiset::group_multiset_axioms;

    if r == at.len() - 1 {
        assert(at.remove(r) =~= at.drop_last());
    } else {
        lemma_rows_at_without(nodes, depth, at.drop_last(), r);
        assert(at.remove(r).drop_last() =~= at.drop_last().remove(r));
        assert(at.remove(r).last() == at.last());
        assert(rows_at(nodes, depth, at) =~= rows_at(nodes, depth, at.remove(r)).add(
            row_bag(nodes[at[r]], depth),
        ));
    }
}

proof fn lemma_rows_at_all(nodes: Seq<NodeView>, depth: nat, at: Seq<int>, n: int)
    requires
        0 <= n <= nodes.len(),
        at.len() == n,
        forall|v: int| 0 <= v < n ==> #[trigger] at.contains(v),
    ensures
        rows_at(nodes, depth, at) == rows_in(nodes, depth, n),
    decreases n,
{
    if n > 0 {
        assert(at.contains(n - 1));
        let r = choose|r: int| 0 <= r < at.len() && at[r] == n - 1;
        let rest = at.remove(r);
        lemma_rows_at_without(nodes, depth, at, r);
        assert forall|v: int| 0 <= v < n - 1 implies #[trigger] rest.contains(v) by {
            assert(at.contains(v));
            let s = choose|s: int| 0 <= s < at.len() && at[s] == v;
            assert(rest[if s < r { s } else { s - 1 }] == v);
        }
        lemma_rows_at_all(nodes, depth, rest, n - 1);
    }
}

proof fn lemma_bag_of_rows(node: NodeView, depth: nat, mode: SortMode)
    ensures
        rows_of(node, depth, mode).to_multiset() == row_bag(node, depth),
    decreases node, 0int,
{
    broadcast use vstd::multiset::group_multiset_axioms;
    broadcast use vstd::seq_lib::group_to_multiset_ensures;

    let own = seq![(depth, node)];
    assert(own.to_multiset() =~= Multiset::singleton((depth, node))) by {
        assert(own =~= Seq::<(nat, NodeView)>::empty().push((depth, node)));
    }
    if node.is_dir && node.expanded {
        let len = node.children.len() as int;
        let o = sorting(node_ranks(node.children, mode));
        let below = rows_upto(node.children, depth + 1, mode, len);
        sorting_exists(node_ranks(node.children, mode));
        lemma_bag_of_rows_upto(node.children, depth + 1, mode, len);
        lemma_rows_at_all(node.children, depth + 1, o, len);
        assert(o.take(len) =~= o);
        vstd::seq_lib::lemma_multiset_commutative(own, below);
    }
}

proof fn lemma_bag_of_rows_upto(nodes: Seq<NodeView>, depth: nat, mode: SortMode, k: int)
    requires
        0 <= k <= nodes.len(),
    ensures
        rows_upto(nodes, depth, mode, k).to_multiset() == rows_at(
            nodes,
            depth,
            sorting(node_ranks(nodes, mode)).take(k),
        ),
    decreases nodes, k,
{
    broadcast use vstd::multiset::group_multiset_axioms;
    broadcast use vstd::seq_lib::group_to_multiset_ensures;

    let o = sorting(node_ranks(nodes, mode));
    sorting_exists(node_ranks(nodes, mode));
    if k > 0 {
        lemma_bag_of_rows_upto(nodes, depth, mode, k - 1);
        assert(0 <= o[k - 1] < nodes.len());
        lemma_bag_of_rows(nodes[o[k - 1]], depth, mode);
        assert(o.take(k).drop_last() =~= o.take(k - 1));
        assert(o.take(k).last() == o[k - 1]);
        vstd::seq_lib::lemma_multiset_commutative(
            rows_upto(nodes, depth, mode, k - 1),
            rows_of(nodes[o[k - 1]], depth, mode),
        );
    } else {
        assert(rows_upto(nodes, depth, mode, k).to_multiset() =~= Multiset::empty());
    }
}

/// The same rows are displayed in one order as in another, each as often.
pub proof fn every_order_has_the_same_rows(tree: NodeView, mode: SortMode, other: SortMode)
    ensures
        rows(tree, mode).to_multiset() == rows(tree, other).to_multiset(),
        rows(tree, mode).len() == rows(tree, other).len(),
{
    broadcast use vstd::seq_lib::group_to_multiset_ensures;

    let len = tree.children.len() as int;
    let a = sorting(node_ranks(tree.children, mode));
    let b = sorting(node_ranks(tree.children, other));
    sorting_exists(node_ranks(tree.children, mode));
    sorting_exists(node_ranks(tree.children, other));
    lemma_bag_of_rows_upto(tree.children, 0, mode, len);
    lemma_bag_of_rows_upto(tree.children, 0, other, len);
    lemma_rows_at_all(tree.children, 0, a, len);
    lemma_rows_at_all(tree.children, 0, b, len);
    assert(a.take(len) =~= a);
    assert(b.take(len) =~= b);
    assert(rows(tree, mode).len() == rows(tree, mode).to_multiset().len());
    assert(rows(tree, other).len() == rows(tree, other).to_multiset().len());
}

// ---------------------------------------------------------------------------
// What is built
// ---------------------------------------------------------------------------

/// A node as it is built: a directory is expanded and stands for no file; a file is not, and has the
/// path of the file that it stands for, as that is written, and a group.
pub open spec fn as_built() -> spec_fn(NodeView) -> bool {
    |n: NodeView|
        if n.is_dir {
            n.expanded && n.file_info is None && n.group_index is None
        } else {
            !n.expanded && n.group_index is Some && match n.file_info {
                Some(f) => n.path == f.path && n.written == f.written,
                None => false,
            }
        }
}

proof fn lemma_group_added_as_built(
    tree: NodeView,
    root: Seq<Step>,
    files: Seq<FileView>,
    group: usize,
    k: int,
)
    requires
        all_nodes(tree, as_built()),
    ensures
        all_nodes(group_added(tree, root, files, group, k), as_built()),
    decreases k,
{
    if 0 < k <= files.len() {
        lemma_group_added_as_built(tree, root, files, group, k - 1);
        if let Some(rel) = path_strip(files[k - 1].path, root) {
            assert(fresh_nodes(as_built(), files[k - 1], group));
            lemma_inserted_all_nodes(
                group_added(tree, root, files, group, k - 1),
                rel,
                files[k - 1],
                group,
                as_built(),
            );
        }
    }
}

proof fn lemma_tree_upto_as_built(groups: Seq<(usize, Seq<FileView>)>, root: PathView, k: int)
    ensures
        all_nodes(tree_upto(groups, root, k), as_built()),
    decreases k,
{
    if 0 < k <= groups.len() {
        lemma_tree_upto_as_built(groups, root, k - 1);
        lemma_group_added_as_built(
            tree_upto(groups, root, k - 1),
            root.steps,
            groups[k - 1].1,
            groups[k - 1].0,
            groups[k - 1].1.len() as int,
        );
    }
}

/// In a tree that was built all directories are expanded, and each file has its own path.
pub proof fn trees_are_built_expanded(groups: Seq<(usize, Seq<FileView>)>, root: PathView)
    ensures
        all_nodes(tree_of(groups, root), as_built()),
        tree_of(groups, root).is_dir,
        tree_of(groups, root).path == root.steps,
        tree_of(groups, root).written == root.written,
{
    lemma_tree_upto_as_built(groups, root, groups.len() as int);
    lemma_tree_upto_root(groups, root, groups.len() as int);
}

proof fn lemma_group_added_root(
    tree: NodeView,
    root: Seq<Step>,
    files: Seq<FileView>,
    group: usize,
    k: int,
)
    ensures
        with_children(group_added(tree, root, files, group, k), seq![]) == with_children(
            tree,
            seq![],
        ),
    decreases k,
{
    if 0 < k <= files.len() {
        lemma_group_added_root(tree, root, files, group, k - 1);
    }
}

proof fn lemma_tree_upto_root(groups: Seq<(usize, Seq<FileView>)>, root: PathView, k: int)
    ensures
        tree_upto(groups, root, k).is_dir,
        tree_upto(groups, root, k).path == root.steps,
        tree_upto(groups, root, k).written == root.written,
    decreases k,
{
    if 0 < k <= groups.len() {
        lemma_tree_upto_root(groups, root, k - 1);
        lemma_group_added_root(
            tree_upto(groups, root, k - 1),
            root.steps,
            groups[k - 1].1,
            groups[k - 1].0,
            groups[k - 1].1.len() as int,
        );
    }
}

/// A file that is put where nothing was stands there with its own name and path, its size and dates,
/// and the number of its group.
pub proof fn files_are_put_where_they_lie(
    node: NodeView,
    steps: Seq<Step>,
    info: FileView,
    group: usize,
)
    requires
        well_formed(node),
        steps.len() > 0,
        lookup(node, steps) is None,
    ensures
        match lookup(inserted(node, steps, info, group), steps) {
            Some(n) => {
                &&& !n.is_dir
                &&& n.name == lossy_text(
                    match steps.last() {
                        Step::Normal(name) => name,
                        Step::RootDir => seq![47u8],
                        Step::CurDir => seq![46u8],
                        Step::ParentDir => seq![46u8, 46u8],
                    },
                )
                &&& n.path == info.path && n.written == info.written
                &&& n.file_info == Some(info)
                &&& n.group_index == Some(group)
                &&& n.children.len() == 0
            },
            None => false,
        },
{
    inserted_file_is_found(node, steps, info, group);
}


/// Groups are numbered by their positions.
pub proof fn groups_are_numbered_by_position(groups: Seq<Seq<FileView>>, i: int)
    ensures
        numbered(groups).len() == groups.len(),
        0 <= i < groups.len() ==> numbered(groups)[i].0 == i as usize && numbered(groups)[i].1
            == groups[i],
{
}


} // verus!
