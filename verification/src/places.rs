//! Where files stand in a tree, and that no file is displayed twice.
use vstd::prelude::*;
use vstd::utf8::encode_utf8;

use crate::order::{comes, in_order, lemma_comes_irreflexive, lex, sorting, sorting_exists, Rank};
use crate::path::{
    full_join_text, is_inner_step, path_of_bytes, path_strip, step_text, PathView, Step,
};
use crate::record::FileView;
use crate::text::{char_lt, lemma_text_order, text_before};
use crate::tree::{
    all_set, dir_node, file_node, group_added, has_child, inserted, lemma_slot, lemma_slot_parts,
    names_ascend, node_ranks, rows, rows_of, rows_upto, slot, toggled, tree_of, tree_upto,
    well_formed, NodeView, SortMode,
};
use crate::tree_laws::{
    all_nodes, differ_in_one_flag, dirs_at_are_apart, has_no_dir_at, lookup,
    toggling_changes_one_flag, way_is_open,
};

verus! {

// ---------------------------------------------------------------------------
// Files and their places
// ---------------------------------------------------------------------------

/// The names of some components.
pub open spec fn step_texts(steps: Seq<Step>) -> Seq<Seq<char>> {
    steps.map_values(|s: Step| step_text(s))
}

/// The path of a file, seen from the root, has the given names.
pub open spec fn stands_at_place(
    path: Seq<Step>,
    place: Seq<Seq<char>>,
    root: Seq<Step>,
) -> bool {
    path_strip(path, root) is Some && step_texts(path_strip(path, root)->0) == place
}

/// Every file stands where its path says: the names on the way to it are those of its path. The
/// node itself is reached by the names in `place`.
pub open spec fn well_placed(node: NodeView, place: Seq<Seq<char>>, root: Seq<Step>) -> bool
    decreases node,
{
    &&& !node.is_dir ==> stands_at_place(node.path, place, root)
    &&& forall|i: int|
        0 <= i < node.children.len() ==> well_placed(
            #[trigger] node.children[i],
            place.push(node.children[i].name),
            root,
        )
}

proof fn lemma_inserted_placed(
    node: NodeView,
    place: Seq<Seq<char>>,
    root: Seq<Step>,
    steps: Seq<Step>,
    info: FileView,
    group: usize,
)
    requires
        well_placed(node, place, root),
        stands_at_place(info.path, place + step_texts(steps), root),
    ensures
        well_placed(inserted(node, steps, info, group), place, root),
    decreases steps.len(),
{
    if steps.len() > 0 {
        let name = step_text(steps[0]);
        let at = slot(node.children, name);
        let after = inserted(node, steps, info, group);
        let there = place.push(name);
        lemma_slot_parts(node.children, name);
        assert(there + step_texts(steps.skip(1)) =~= place + step_texts(steps));
        if !has_child(node.children, name) {
            let fresh = dir_node(name, full_join_text(node.full_path(), name));
            let child = if steps.len() == 1 {
                file_node(name, info, group)
            } else {
                inserted(fresh, steps.skip(1), info, group)
            };
            if steps.len() == 1 {
                assert(there =~= place + step_texts(steps));
                assert(well_placed(child, there, root));
            } else {
                assert(well_placed(fresh, there, root));
                lemma_inserted_placed(fresh, there, root, steps.skip(1), info, group);
            }
            assert forall|i: int| 0 <= i < after.children.len() implies well_placed(
                #[trigger] after.children[i],
                place.push(after.children[i].name),
                root,
            ) by {
                if i < at {
                    assert(after.children[i] == node.children[i]);
                } else if i > at {
                    assert(after.children[i] == node.children[i - 1]);
                } else {
                    assert(after.children[i] == child);
                    assert(child.name == name);
                }
            }
        } else if steps.len() > 1 {
            let child = node.children[at];
            assert(well_placed(child, place.push(child.name), root));
            lemma_inserted_placed(child, there, root, steps.skip(1), info, group);
            assert forall|i: int| 0 <= i < after.children.len() implies well_placed(
                #[trigger] after.children[i],
                place.push(after.children[i].name),
                root,
            ) by {
                if i != at {
                    assert(after.children[i] == node.children[i]);
                } else {
                    assert(after.children[i] == inserted(child, steps.skip(1), info, group));
                    assert(after.children[i].name == child.name);
                }
            }
        }
    }
}

proof fn lemma_group_placed(
    tree: NodeView,
    root: Seq<Step>,
    files: Seq<FileView>,
    group: usize,
    k: int,
)
    requires
        well_placed(tree, seq![], root),
    ensures
        well_placed(group_added(tree, root, files, group, k), seq![], root),
    decreases k,
{
    if 0 < k <= files.len() {
        let before = group_added(tree, root, files, group, k - 1);
        lemma_group_placed(tree, root, files, group, k - 1);
        if let Some(rel) = path_strip(files[k - 1].path, root) {
            assert(Seq::<Seq<char>>::empty() + step_texts(rel) =~= step_texts(rel));
            lemma_inserted_placed(before, seq![], root, rel, files[k - 1], group);
        }
    }
}

/// In a tree that was built every file stands where its path says.
pub proof fn built_trees_are_well_placed(
    groups: Seq<(usize, Seq<FileView>)>,
    root: PathView,
    k: int,
)
    ensures
        well_placed(tree_upto(groups, root, k), seq![], root.steps),
    decreases k,
{
    if 0 < k <= groups.len() {
        let (number, files) = groups[k - 1];
        built_trees_are_well_placed(groups, root, k - 1);
        lemma_group_placed(
            tree_upto(groups, root, k - 1),
            root.steps,
            files,
            number,
            files.len() as int,
        );
    }
}

// ---------------------------------------------------------------------------
// Expanding and collapsing
// ---------------------------------------------------------------------------

/// Expanding or collapsing a directory keeps a tree well-formed and leaves every file where it
/// stands.
pub proof fn toggling_keeps_places(
    node: NodeView,
    path: Seq<Step>,
    place: Seq<Seq<char>>,
    root: Seq<Step>,
)
    requires
        well_formed(node),
        well_placed(node, place, root),
    ensures
        well_formed(toggled(node, path)),
        well_placed(toggled(node, path), place, root),
        toggled(node, path).name == node.name,
        toggled(node, path).path == node.path,
        toggled(node, path).is_dir == node.is_dir,
    decreases node,
{
    let after = toggled(node, path);
    assert forall|i: int| 0 <= i < after.children.len() implies {
        &&& well_formed(#[trigger] after.children[i])
        &&& well_placed(after.children[i], place.push(after.children[i].name), root)
        &&& after.children[i].name == node.children[i].name
    } by {
        let there = place.push(node.children[i].name);
        assert(well_placed(node.children[i], there, root));
        if node.path == path && node.is_dir {
            assert(after.children[i] == node.children[i]);
        } else {
            assert(after.children[i] == toggled(node.children[i], path));
            toggling_keeps_places(node.children[i], path, there, root);
        }
    }
    lemma_same_names_ascend(node.children, after.children);
}

/// Expanding or collapsing all directories keeps a tree well-formed and leaves every file where it
/// stands.
pub proof fn setting_all_keeps_places(
    node: NodeView,
    expanded: bool,
    place: Seq<Seq<char>>,
    root: Seq<Step>,
)
    requires
        well_formed(node),
        well_placed(node, place, root),
    ensures
        well_formed(all_set(node, expanded)),
        well_placed(all_set(node, expanded), place, root),
        all_set(node, expanded).name == node.name,
        all_set(node, expanded).path == node.path,
        all_set(node, expanded).is_dir == node.is_dir,
    decreases node,
{
    let after = all_set(node, expanded);
    assert forall|i: int| 0 <= i < after.children.len() implies {
        &&& well_formed(#[trigger] after.children[i])
        &&& well_placed(after.children[i], place.push(after.children[i].name), root)
        &&& after.children[i].name == node.children[i].name
    } by {
        let there = place.push(node.children[i].name);
        assert(well_placed(node.children[i], there, root));
        assert(after.children[i] == all_set(node.children[i], expanded));
        setting_all_keeps_places(node.children[i], expanded, there, root);
    }
    lemma_same_names_ascend(node.children, after.children);
}

proof fn lemma_same_names_ascend(children: Seq<NodeView>, others: Seq<NodeView>)
    requires
        names_ascend(children),
        others.len() == children.len(),
        forall|i: int|
            0 <= i < others.len() ==> (#[trigger] others[i]).name == children[i].name,
    ensures
        names_ascend(others),
{
    assert forall|i: int, j: int| 0 <= i < j < others.len() implies text_before(
        (#[trigger] others[i]).name,
        (#[trigger] others[j]).name,
    ) by {
        assert(text_before(children[i].name, children[j].name));
    }
}

proof fn lemma_same_slot(children: Seq<NodeView>, others: Seq<NodeView>, name: Seq<char>)
    requires
        others.len() == children.len(),
        forall|i: int|
            0 <= i < others.len() ==> (#[trigger] others[i]).name == children[i].name,
    ensures
        slot(others, name) == slot(children, name),
        has_child(others, name) == has_child(children, name),
{
    lemma_slot_parts(children, name);
    lemma_slot(others, name, slot(children, name));
}

/// No node on the way along the given steps has that path, but perhaps the one at their end.
pub open spec fn passes_by(node: NodeView, steps: Seq<Step>, path: Seq<Step>) -> bool
    decreases steps.len(),
{
    steps.len() == 0 || {
        let name = step_text(steps[0]);
        node.path != path && (has_child(node.children, name) ==> passes_by(
            node.children[slot(node.children, name)],
            steps.skip(1),
            path,
        ))
    }
}

/// Expanding a collapsed directory opens the way to what lies directly in it, where no other
/// directory on the way has the same path.
pub proof fn toggling_opens_the_way(
    node: NodeView,
    way: Seq<Step>,
    last: Step,
    path: Seq<Step>,
)
    requires
        lookup(node, way) matches Some(d) && d.path == path && d.is_dir && !d.expanded,
        lookup(node, way.push(last)) is Some,
        way_is_open(node, way),
        passes_by(node, way, path),
    ensures
        lookup(toggled(node, path), way.push(last)) == lookup(node, way.push(last)),
        way_is_open(toggled(node, path), way.push(last)),
    decreases way.len(),
{
    let after = toggled(node, path);
    let all = way.push(last);
    reveal_with_fuel(lookup, 2);
    if way.len() == 0 {
        assert(after.children == node.children);
        assert(all.skip(1) =~= way);
    } else {
        let name = step_text(way[0]);
        let rest = way.skip(1);
        assert(all[0] == way[0]);
        assert(all.skip(1) =~= rest.push(last));
        assert forall|i: int| 0 <= i < after.children.len() implies (
        #[trigger] after.children[i]).name == node.children[i].name by {
            assert(after.children[i] == toggled(node.children[i], path));
        }
        lemma_same_slot(node.children, after.children, name);
        lemma_slot_parts(node.children, name);
        let at = slot(node.children, name);
        let child = node.children[at];
        assert(after.children[at] == toggled(child, path));
        toggling_opens_the_way(child, rest, last, path);
        if rest.len() == 0 {
            assert(lookup(child, rest) == Some(child));
        }
    }
}

// ---------------------------------------------------------------------------
// Displayed rows
// ---------------------------------------------------------------------------

/// No two rows are files with the same path.
pub open spec fn files_differ(rows: Seq<(nat, NodeView)>) -> bool {
    forall|i: int, j: int|
        0 <= i < j < rows.len() && !(#[trigger] rows[i]).1.is_dir && !(
        #[trigger] rows[j]).1.is_dir ==> rows[i].1.path != rows[j].1.path
}

/// The names of a path, seen from the root, begin with the given ones.
spec fn lies_below(path: Seq<Step>, place: Seq<Seq<char>>, root: Seq<Step>) -> bool {
    let names = step_texts(path_strip(path, root)->0);
    names.len() >= place.len() && names.take(place.len() as int) == place
}

/// A path lies below one of the first `k` of some sibling nodes in their order.
spec fn lies_below_some(
    path: Seq<Step>,
    nodes: Seq<NodeView>,
    mode: SortMode,
    k: int,
    place: Seq<Seq<char>>,
    root: Seq<Step>,
) -> bool {
    exists|r: int|
        0 <= r < k && lies_below(
            path,
            place.push(nodes[#[trigger] sorting(node_ranks(nodes, mode))[r]].name),
            root,
        )
}

proof fn lemma_rows_of_differ(
    node: NodeView,
    depth: nat,
    mode: SortMode,
    place: Seq<Seq<char>>,
    root: Seq<Step>,
)
    requires
        well_formed(node),
        well_placed(node, place, root),
    ensures
        files_differ(rows_of(node, depth, mode)),
        forall|i: int|
            0 <= i < rows_of(node, depth, mode).len() && !(#[trigger] rows_of(
                node,
                depth,
                mode,
            )[i]).1.is_dir ==> lies_below(rows_of(node, depth, mode)[i].1.path, place, root),
    decreases node, 0int,
{
    let all = rows_of(node, depth, mode);
    if node.is_dir && node.expanded {
        let len = node.children.len() as int;
        let o = sorting(node_ranks(node.children, mode));
        let below = rows_upto(node.children, depth + 1, mode, len);
        lemma_rows_upto_differ(node.children, depth + 1, mode, len, place, root);
        assert(all[0].1.is_dir);
        assert forall|i: int, j: int|
            0 <= i < j < all.len() && !(#[trigger] all[i]).1.is_dir && !(
            #[trigger] all[j]).1.is_dir implies all[i].1.path != all[j].1.path by {
            assert(all[i] == below[i - 1] && all[j] == below[j - 1]);
        }
        assert forall|i: int| 0 <= i < all.len() && !(#[trigger] all[i]).1.is_dir implies
            lies_below(all[i].1.path, place, root) by {
            assert(all[i] == below[i - 1]);
            assert(lies_below_some(below[i - 1].1.path, node.children, mode, len, place, root));
            let r = choose|r: int|
                0 <= r < len && lies_below(
                    below[i - 1].1.path,
                    place.push(node.children[#[trigger] o[r]].name),
                    root,
                );
            let names = step_texts(path_strip(all[i].1.path, root)->0);
            let longer = place.push(node.children[o[r]].name);
            assert(names.take(longer.len() as int).take(place.len() as int) =~= names.take(
                place.len() as int,
            ));
            assert(longer.take(place.len() as int) =~= place);
        }
    } else if !node.is_dir {
        let names = step_texts(path_strip(node.path, root)->0);
        assert(names.take(place.len() as int) =~= place);
    }
}

proof fn lemma_rows_upto_differ(
    nodes: Seq<NodeView>,
    depth: nat,
    mode: SortMode,
    k: int,
    place: Seq<Seq<char>>,
    root: Seq<Step>,
)
    requires
        0 <= k <= nodes.len(),
        names_ascend(nodes),
        forall|i: int| 0 <= i < nodes.len() ==> well_formed(#[trigger] nodes[i]),
        forall|i: int|
            0 <= i < nodes.len() ==> well_placed(
                #[trigger] nodes[i],
                place.push(nodes[i].name),
                root,
            ),
    ensures
        files_differ(rows_upto(nodes, depth, mode, k)),
        forall|i: int|
            0 <= i < rows_upto(nodes, depth, mode, k).len() && !(#[trigger] rows_upto(
                nodes,
                depth,
                mode,
                k,
            )[i]).1.is_dir ==> lies_below_some(
                rows_upto(nodes, depth, mode, k)[i].1.path,
                nodes,
                mode,
                k,
                place,
                root,
            ),
    decreases nodes, k,
{
    if k > 0 {
        let keys = node_ranks(nodes, mode);
        let o = sorting(keys);
        sorting_exists(keys);
        let at = o[k - 1];
        assert(0 <= at < nodes.len());
        let all = rows_upto(nodes, depth, mode, k);
        let before = rows_upto(nodes, depth, mode, k - 1);
        let own = rows_of(nodes[at], depth, mode);
        let here = place.push(nodes[at].name);
        assert(all == before + own);
        lemma_rows_upto_differ(nodes, depth, mode, k - 1, place, root);
        lemma_rows_of_differ(nodes[at], depth, mode, here, root);
        assert forall|i: int| 0 <= i < all.len() && !(#[trigger] all[i]).1.is_dir implies
            lies_below_some(all[i].1.path, nodes, mode, k, place, root) by {
            if i < before.len() {
                assert(all[i] == before[i]);
                assert(lies_below_some(before[i].1.path, nodes, mode, k - 1, place, root));
            } else {
                assert(all[i] == own[i - before.len()]);
                assert(lies_below(all[i].1.path, place.push(nodes[o[k - 1]].name), root));
            }
        }
        assert forall|i: int, j: int|
            0 <= i < j < all.len() && !(#[trigger] all[i]).1.is_dir && !(
            #[trigger] all[j]).1.is_dir implies all[i].1.path != all[j].1.path by {
            if j < before.len() {
                assert(all[i] == before[i] && all[j] == before[j]);
            } else if i >= before.len() {
                assert(all[i] == own[i - before.len()] && all[j] == own[j - before.len()]);
            } else {
                assert(all[i] == before[i] && all[j] == own[j - before.len()]);
                assert(lies_below_some(before[i].1.path, nodes, mode, k - 1, place, root));
                let r = choose|r: int|
                    0 <= r < k - 1 && lies_below(
                        before[i].1.path,
                        place.push(nodes[#[trigger] o[r]].name),
                        root,
                    );
                lemma_siblings_differ(nodes, keys, o, r, k - 1);
                let one = place.push(nodes[o[r]].name);
                assert(one.last() != here.last());
                assert(lies_below(all[j].1.path, here, root));
            }
        }
    }
}

proof fn lemma_siblings_differ(
    nodes: Seq<NodeView>,
    keys: Seq<Rank>,
    o: Seq<int>,
    r: int,
    s: int,
)
    requires
        names_ascend(nodes),
        keys.len() == nodes.len(),
        in_order(keys, o),
        0 <= r < s < o.len(),
    ensures
        nodes[o[r]].name != nodes[o[s]].name,
{
    lemma_comes_irreflexive(keys, o[r]);
    assert(comes(keys, o[r], o[s]));
    lemma_text_order();
    let texts = lex(char_lt());
    let a = nodes[o[r]].name;
    let b = nodes[o[s]].name;
    if o[r] < o[s] {
        assert(text_before(a, b));
        assert(texts(a, b) ==> !texts(b, a));
    } else {
        assert(text_before(b, a));
        assert(texts(b, a) ==> !texts(a, b));
    }
}

/// No file is displayed twice, in whatever order the rows are.
pub proof fn no_file_is_displayed_twice(tree: NodeView, root: Seq<Step>, mode: SortMode)
    requires
        well_formed(tree),
        well_placed(tree, seq![], root),
    ensures
        files_differ(rows(tree, mode)),
{
    lemma_rows_upto_differ(tree.children, 0, mode, tree.children.len() as int, seq![], root);
}

// ---------------------------------------------------------------------------
// Levels
// ---------------------------------------------------------------------------

/// Each node's path is one step longer than that of the node in which it lies.
pub open spec fn levelled(node: NodeView) -> bool
    decreases node,
{
    forall|i: int|
        0 <= i < node.children.len() ==> (#[trigger] node.children[i]).path.len()
            == node.path.len() + 1 && levelled(node.children[i])
}

/// The name of a directory, as it is shown, is again the name of a directory. It is not where bytes
/// that cannot be shown make it something else.
pub open spec fn leads_down(s: Step) -> bool {
    let read = path_of_bytes(encode_utf8(step_text(s)));
    read.len() == 1 && is_inner_step(read[0])
}

/// All steps but the last lead down.
pub open spec fn all_lead_down(steps: Seq<Step>) -> bool {
    forall|i: int| 0 <= i < steps.len() - 1 ==> leads_down(#[trigger] steps[i])
}

/// The directories in which the files of some groups lie below a root all lead down.
pub open spec fn ways_lead_down(groups: Seq<(usize, Seq<FileView>)>, root: Seq<Step>) -> bool {
    forall|g: int, i: int|
        0 <= g < groups.len() && 0 <= i < groups[g].1.len() && path_strip(
            (#[trigger] groups[g].1[i]).path,
            root,
        ) is Some ==> all_lead_down(path_strip(groups[g].1[i].path, root)->0)
}

proof fn lemma_inserted_levelled(node: NodeView, steps: Seq<Step>, info: FileView, group: usize)
    requires
        levelled(node),
        all_lead_down(steps),
        info.path.len() == node.path.len() + steps.len(),
    ensures
        levelled(inserted(node, steps, info, group)),
        inserted(node, steps, info, group).path == node.path,
    decreases steps.len(),
{
    if steps.len() > 0 {
        let name = step_text(steps[0]);
        let at = slot(node.children, name);
        let after = inserted(node, steps, info, group);
        let rest = steps.skip(1);
        lemma_slot_parts(node.children, name);
        assert forall|i: int| 0 <= i < rest.len() - 1 implies leads_down(#[trigger] rest[i]) by {
            assert(rest[i] == steps[i + 1]);
        }
        if !has_child(node.children, name) {
            let fresh = dir_node(name, full_join_text(node.full_path(), name));
            let child = if steps.len() == 1 {
                file_node(name, info, group)
            } else {
                inserted(fresh, rest, info, group)
            };
            if steps.len() > 1 {
                assert(leads_down(steps[0]));
                assert(fresh.path.len() == node.path.len() + 1);
                lemma_inserted_levelled(fresh, rest, info, group);
            }
            assert forall|i: int| 0 <= i < after.children.len() implies (
            #[trigger] after.children[i]).path.len() == node.path.len() + 1 && levelled(
                after.children[i],
            ) by {
                if i < at {
                    assert(after.children[i] == node.children[i]);
                } else if i > at {
                    assert(after.children[i] == node.children[i - 1]);
                } else {
                    assert(after.children[i] == child);
                }
            }
        } else if steps.len() > 1 {
            let child = node.children[at];
            lemma_inserted_levelled(child, rest, info, group);
            assert forall|i: int| 0 <= i < after.children.len() implies (
            #[trigger] after.children[i]).path.len() == node.path.len() + 1 && levelled(
                after.children[i],
            ) by {
                if i != at {
                    assert(after.children[i] == node.children[i]);
                }
            }
        }
    }
}

proof fn lemma_group_levelled(
    tree: NodeView,
    root: Seq<Step>,
    files: Seq<FileView>,
    group: usize,
    k: int,
)
    requires
        levelled(tree),
        tree.path == root,
        forall|i: int|
            0 <= i < files.len() && path_strip((#[trigger] files[i]).path, root) is Some
                ==> all_lead_down(path_strip(files[i].path, root)->0),
    ensures
        levelled(group_added(tree, root, files, group, k)),
        group_added(tree, root, files, group, k).path == root,
    decreases k,
{
    if 0 < k <= files.len() {
        let before = group_added(tree, root, files, group, k - 1);
        lemma_group_levelled(tree, root, files, group, k - 1);
        if let Some(rel) = path_strip(files[k - 1].path, root) {
            lemma_inserted_levelled(before, rel, files[k - 1], group);
        }
    }
}

/// In a tree that was built each node's path is one step longer than that of the node in which it
/// lies, where all directories lead down.
pub proof fn built_trees_are_levelled(
    groups: Seq<(usize, Seq<FileView>)>,
    root: PathView,
    k: int,
)
    requires
        ways_lead_down(groups, root.steps),
    ensures
        levelled(tree_upto(groups, root, k)),
        tree_upto(groups, root, k).path == root.steps,
    decreases k,
{
    if 0 < k <= groups.len() {
        let (number, files) = groups[k - 1];
        built_trees_are_levelled(groups, root, k - 1);
        assert forall|i: int|
            0 <= i < files.len() && path_strip((#[trigger] files[i]).path, root.steps) is Some implies
            all_lead_down(path_strip(files[i].path, root.steps)->0) by {
            assert(groups[k - 1].1[i] == files[i]);
        }
        lemma_group_levelled(
            tree_upto(groups, root, k - 1),
            root.steps,
            files,
            number,
            files.len() as int,
        );
    }
}

/// Expanding or collapsing a directory leaves every node on its level.
pub proof fn toggling_keeps_levels(node: NodeView, path: Seq<Step>)
    requires
        levelled(node),
    ensures
        levelled(toggled(node, path)),
        toggled(node, path).path == node.path,
    decreases node,
{
    let after = toggled(node, path);
    assert forall|i: int| 0 <= i < after.children.len() implies (
    #[trigger] after.children[i]).path.len() == node.path.len() + 1 && levelled(
        after.children[i],
    ) by {
        assert(levelled(node.children[i]));
        if !(node.path == path && node.is_dir) {
            assert(after.children[i] == toggled(node.children[i], path));
            toggling_keeps_levels(node.children[i], path);
        }
    }
}

proof fn lemma_longer_below(node: NodeView, path: Seq<Step>)
    requires
        levelled(node),
        node.path.len() > path.len(),
    ensures
        has_no_dir_at(node, path),
    decreases node,
{
    let p = |n: NodeView| !(n.is_dir && n.path == path);
    assert forall|i: int| 0 <= i < node.children.len() implies all_nodes(
        #[trigger] node.children[i],
        p,
    ) by {
        lemma_longer_below(node.children[i], path);
    }
}

/// Where every node is on its level, no directory lies in another with the same path.
pub proof fn levels_keep_directories_apart(node: NodeView, path: Seq<Step>)
    requires
        levelled(node),
    ensures
        dirs_at_are_apart(node, path),
    decreases node,
{
    assert forall|i: int| 0 <= i < node.children.len() implies if node.is_dir && node.path == path {
        has_no_dir_at(#[trigger] node.children[i], path)
    } else {
        dirs_at_are_apart(node.children[i], path)
    } by {
        if node.is_dir && node.path == path {
            lemma_longer_below(node.children[i], path);
        } else {
            levels_keep_directories_apart(node.children[i], path);
        }
    }
}

/// In a tree that was built, toggling a directory expands or collapses it and changes nothing else.
pub proof fn toggling_a_built_tree_changes_one_flag(
    groups: Seq<(usize, Seq<FileView>)>,
    root: PathView,
    path: Seq<Step>,
)
    requires
        ways_lead_down(groups, root.steps),
    ensures
        differ_in_one_flag(tree_of(groups, root), toggled(tree_of(groups, root), path), path),
{
    let tree = tree_of(groups, root);
    built_trees_are_levelled(groups, root, groups.len() as int);
    levels_keep_directories_apart(tree, path);
    toggling_changes_one_flag(tree, path);
}

} // verus!
