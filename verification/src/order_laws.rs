//! In what order groups and siblings come, and what totals add up to.
use vstd::prelude::*;

use crate::groups::{
    file_total, group_rank, group_ranks, held_total, of_size, sorted_groups, wasted_total,
};
use crate::order::{comes, in_order, lemma_comes_irreflexive, lex, sorting, sorting_exists, Rank};
use crate::path::{lemma_path_order, path_before, step_lt};
use crate::record::FileView;
use crate::sequence::{ascend_below, lemma_filter_places};
use crate::text::{char_lt, lemma_text_order, text_before};
use crate::tree::{
    file_count, files_in, node_rank, node_ranks, sizes_in, total_size, NodeView, SortMode,
};
use crate::tree_laws::{with_children, with_expanded};

verus! {

// ---------------------------------------------------------------------------
// Order
// ---------------------------------------------------------------------------

/// `o` lists all positions below `n`, each once.
pub open spec fn is_arrangement(o: Seq<int>, n: int) -> bool {
    &&& o.len() == n
    &&& forall|k: int| 0 <= k < n ==> 0 <= #[trigger] o[k] < n
    &&& forall|k: int, l: int| 0 <= k < l < n ==> #[trigger] o[k] != #[trigger] o[l]
    &&& forall|i: int| 0 <= i < n ==> #[trigger] o.contains(i)
}

/// One date comes before another: the later one first, and those that are not known last.
pub open spec fn later_first(a: Option<i128>, b: Option<i128>) -> bool {
    match (a, b) {
        (Some(x), Some(y)) => x > y,
        (Some(_), None) => true,
        _ => false,
    }
}

/// By that order, one group comes before another: by the paths of their first files, the larger
/// first files first, the later first files first, or the larger groups first.
pub open spec fn group_goes_first(a: Seq<FileView>, b: Seq<FileView>, mode: SortMode) -> bool {
    match mode {
        SortMode::Name => path_before(a[0].path, b[0].path),
        SortMode::Size => a[0].size > b[0].size,
        SortMode::Date => later_first(a[0].modified, b[0].modified),
        SortMode::Count => a.len() > b.len(),
    }
}

/// The sorted groups stand at the positions in `o`, in their order, and those that are equal in it
/// as they stood.
pub open spec fn are_in_order(
    o: Seq<int>,
    groups: Seq<Seq<FileView>>,
    sorted: Seq<Seq<FileView>>,
    mode: SortMode,
) -> bool {
    &&& is_arrangement(o, groups.len() as int)
    &&& sorted.len() == groups.len()
    &&& forall|k: int| 0 <= k < sorted.len() ==> #[trigger] sorted[k] == groups[o[k]]
    &&& forall|k: int, l: int|
        0 <= k < l < sorted.len() ==> group_goes_first(
            #[trigger] sorted[k],
            #[trigger] sorted[l],
            mode,
        ) || (!group_goes_first(sorted[l], sorted[k], mode) && o[k] < o[l])
}

proof fn lemma_arrangement(keys: Seq<Rank>)
    ensures
        is_arrangement(sorting(keys), keys.len() as int),
        in_order(keys, sorting(keys)),
{
    sorting_exists(keys);
    let o = sorting(keys);
    assert forall|k: int, l: int| 0 <= k < l < o.len() implies #[trigger] o[k] != #[trigger] o[l] by {
        assert(comes(keys, o[k], o[l]));
        if o[k] == o[l] {
            lemma_comes_irreflexive(keys, o[k]);
        }
    }
}

/// Sorting puts every group at its place and loses none: by name, the largest first, the latest
/// first or the most copies first, with equal ones left in their order.
pub proof fn groups_are_sorted(groups: Seq<Seq<FileView>>, mode: SortMode)
    ensures
        exists|o: Seq<int>| #[trigger] are_in_order(o, groups, sorted_groups(groups, mode), mode),
{
    let keys = group_ranks(groups, mode);
    let o = sorting(keys);
    let sorted = sorted_groups(groups, mode);
    lemma_arrangement(keys);
    lemma_path_order();
    let before = lex(step_lt());
    assert forall|k: int, l: int| 0 <= k < l < sorted.len() implies group_goes_first(
        #[trigger] sorted[k],
        #[trigger] sorted[l],
        mode,
    ) || (!group_goes_first(sorted[l], sorted[k], mode) && o[k] < o[l]) by {
        assert(comes(keys, o[k], o[l]));
        assert(sorted[k] == groups[o[k]] && sorted[l] == groups[o[l]]);
        assert(keys[o[k]] == group_rank(sorted[k], mode));
        assert(keys[o[l]] == group_rank(sorted[l], mode));
        if mode == SortMode::Name && keys[o[k]] == keys[o[l]] {
            let p = sorted[k][0].path;
            assert(p == sorted[l][0].path);
            assert(!before(p, p)) by {
                if before(p, p) {
                    assert(!before(p, p));
                }
            }
        }
    }
    assert(are_in_order(o, groups, sorted, mode));
}

/// By that order, one node comes before another: by name, the larger file first, the later file
/// first, or the one with more files in it first. A directory has no size and no date of its own.
pub open spec fn node_goes_first(a: NodeView, b: NodeView, mode: SortMode) -> bool {
    let size = |n: NodeView| if n.file_info is Some { n.file_info->0.size } else { 0u64 };
    let date = |n: NodeView| if n.file_info is Some { n.file_info->0.modified } else { None };
    match mode {
        SortMode::Name => text_before(a.name, b.name),
        SortMode::Size => size(a) > size(b),
        SortMode::Date => later_first(date(a), date(b)),
        SortMode::Count => file_count(a) > file_count(b),
    }
}

/// Siblings come in their order, and those that are equal in it by their places among the children,
/// which is by name.
pub proof fn siblings_come_in_order(nodes: Seq<NodeView>, mode: SortMode, i: int, j: int)
    requires
        0 <= i < nodes.len(),
        0 <= j < nodes.len(),
    ensures
        comes(node_ranks(nodes, mode), i, j) <==> node_goes_first(nodes[i], nodes[j], mode) || (
        !node_goes_first(nodes[j], nodes[i], mode) && i < j),
{
    let keys = node_ranks(nodes, mode);
    lemma_text_order();
    let before = lex(char_lt());
    let a = nodes[i];
    let b = nodes[j];
    assert(keys[i] == node_rank(a, mode) && keys[j] == node_rank(b, mode));
    if mode == SortMode::Name {
        assert(a.name == b.name || before(a.name, b.name) || before(b.name, a.name));
        assert(before(a.name, b.name) ==> !before(b.name, a.name));
        assert(before(b.name, a.name) ==> !before(a.name, b.name));
    }
}

// ---------------------------------------------------------------------------
// Totals of groups
// ---------------------------------------------------------------------------

/// Without groups all totals are zero, and each group adds to them: its files; the size of its first
/// file for each of its files; and that size for each but one.
pub proof fn each_group_adds_to_the_totals(groups: Seq<Seq<FileView>>, more: Seq<FileView>)
    requires
        more.len() > 0,
    ensures
        file_total(seq![]) == 0,
        held_total(seq![]) == 0,
        wasted_total(seq![]) == 0,
        file_total(groups.push(more)) == file_total(groups) + more.len(),
        held_total(groups.push(more)) == held_total(groups) + more[0].size as nat * more.len(),
        wasted_total(groups.push(more)) == wasted_total(groups) + more[0].size * (more.len() - 1),
{
    assert(groups.push(more).drop_last() =~= groups);
}

/// What is held without what is wasted is one file of each group.
pub proof fn one_file_of_each_group_is_not_wasted(groups: Seq<Seq<FileView>>, more: Seq<FileView>)
    requires
        more.len() > 0,
    ensures
        held_total(groups.push(more)) - wasted_total(groups.push(more)) == held_total(groups)
            - wasted_total(groups) + more[0].size,
{
    assert(groups.push(more).drop_last() =~= groups);
    assert(more[0].size * more.len() - more[0].size * (more.len() - 1) == more[0].size)
        by (nonlinear_arith);
}

/// The least size leaves in the groups whose first file has it, or more, and no other; they keep
/// their order.
pub proof fn small_groups_are_left_out(groups: Seq<Seq<FileView>>, min: u64)
    ensures
        exists|at: Seq<int>| #[trigger] are_large(at, groups, groups.filter(of_size(min)), min),
{
    let at = lemma_filter_places(groups, of_size(min));
    assert forall|i: int| 0 <= i < groups.len() && (#[trigger] groups[i])[0].size >= min implies
        at.contains(i) by {
        assert(of_size(min)(groups[i]));
    }
    assert(are_large(at, groups, groups.filter(of_size(min)), min));
}

/// What is left are the groups at these positions: all whose first file has that size or more.
pub open spec fn are_large(
    at: Seq<int>,
    groups: Seq<Seq<FileView>>,
    left: Seq<Seq<FileView>>,
    min: u64,
) -> bool {
    &&& ascend_below(at, groups.len() as int)
    &&& left.len() == at.len()
    &&& forall|k: int|
        0 <= k < at.len() ==> left[k] == groups[#[trigger] at[k]] && left[k][0].size >= min
    &&& forall|i: int|
        0 <= i < groups.len() && (#[trigger] groups[i])[0].size >= min ==> at.contains(i)
}

// ---------------------------------------------------------------------------
// Totals of trees
// ---------------------------------------------------------------------------

proof fn lemma_prefix_totals(children: Seq<NodeView>, more: NodeView, k: int)
    requires
        0 <= k <= children.len(),
    ensures
        files_in(children.push(more), k) == files_in(children, k),
        sizes_in(children.push(more), k) == sizes_in(children, k),
    decreases k,
{
    if k > 0 {
        lemma_prefix_totals(children, more, k - 1);
        assert(children.push(more)[k - 1] == children[k - 1]);
    }
}

/// A file counts as one file, with its size. A directory counts what lies in it: an empty one
/// nothing, and each thing more adds what it counts itself, whether it is displayed or not.
pub proof fn trees_count_their_files(node: NodeView, children: Seq<NodeView>, more: NodeView)
    ensures
        !node.is_dir ==> file_count(node) == 1 && total_size(node) == if node.file_info is Some {
            node.file_info->0.size as nat
        } else {
            0
        },
        node.is_dir ==> {
            &&& file_count(with_children(node, seq![])) == 0
            &&& total_size(with_children(node, seq![])) == 0
            &&& file_count(with_children(node, children.push(more))) == file_count(
                with_children(node, children),
            ) + file_count(more)
            &&& total_size(with_children(node, children.push(more))) == total_size(
                with_children(node, children),
            ) + total_size(more)
        },
        file_count(with_expanded(node, true)) == file_count(with_expanded(node, false)),
        total_size(with_expanded(node, true)) == total_size(with_expanded(node, false)),
{
    let n = children.len() as int;
    lemma_prefix_totals(children, more, n);
    assert(children.push(more)[n] == more);
}

} // verus!
