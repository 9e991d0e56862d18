//! The tree of directories in which the duplicate files lie.
use vstd::prelude::*;

use crate::order::{
    in_order, lex, positions, ranks, sorting, stable_sorting, total_order, Key, Rank,
};
use crate::path::{
    components_view, full_join_text, path_strip, step_text, Component, FilePath, PathView, Step,
};
use crate::record::{group_view, groups_view, DuplicateGroups, FileInfo, FileView};
use crate::text::{char_lt, lemma_text_order, text_before, text_equals, text_is_before};

verus! {

/// Sort mode for display ordering.
#[derive(Debug, Clone, Copy, PartialEq, Eq, Structural)]
pub enum SortMode {
    Name,
    Size,
    Date,
    Count,
}

/// A node in the file tree: a directory or a duplicate file.
#[derive(Debug)]
pub struct TreeNode {
    pub name: String,
    pub path: FilePath,
    pub is_dir: bool,
    pub expanded: bool,
    /// In ascending order of their names, each name once.
    pub children: Vec<TreeNode>,
    pub file_info: Option<FileInfo>,
    pub group_index: Option<usize>,
}

/// What a node stands for.
pub struct NodeView {
    pub name: Seq<char>,
    pub path: Seq<Step>,
    /// How the path is written.
    pub written: Seq<u8>,
    pub is_dir: bool,
    pub expanded: bool,
    pub children: Seq<NodeView>,
    pub file_info: Option<FileView>,
    pub group_index: Option<usize>,
}

impl NodeView {
    /// The path with the way in which it is written.
    pub open spec fn full_path(self) -> PathView {
        PathView { steps: self.path, written: self.written }
    }
}

/// What an optional `FileInfo` stands for.
pub open spec fn info_view(info: Option<FileInfo>) -> Option<FileView> {
    match info {
        Some(f) => Some(f@),
        None => None,
    }
}

impl View for TreeNode {
    type V = NodeView;

    open spec fn view(&self) -> NodeView
        decreases self,
    {
        NodeView {
            name: self.name@,
            path: self.path@,
            written: self.path.written@,
            is_dir: self.is_dir,
            expanded: self.expanded,
            children: Seq::new(
                self.children@.len(),
                |i: int|
                    if 0 <= i < self.children@.len() {
                        self.children@[i].view()
                    } else {
                        arbitrary()
                    },
            ),
            file_info: info_view(self.file_info),
            group_index: self.group_index,
        }
    }
}

/// What a sequence of nodes stands for.
pub open spec fn nodes_view(nodes: Seq<TreeNode>) -> Seq<NodeView> {
    nodes.map_values(|n: TreeNode| n@)
}

/// The children that a node stands for are those that its children stand for.
pub proof fn lemma_children_view(node: TreeNode)
    ensures
        node@.children == nodes_view(node.children@),
        node@.children.len() == node.children@.len(),
        forall|i: int|
            0 <= i < node.children@.len() ==> node@.children[i] == #[trigger] node.children@[i]@,
{
    reveal_with_fuel(<TreeNode as View>::view, 2);
    assert forall|i: int| 0 <= i < node.children@.len() implies node@.children[i]
        == #[trigger] node.children@[i]@ by {}
    assert(node@.children =~= nodes_view(node.children@));
}

// ---------------------------------------------------------------------------
// Well-formed trees
// ---------------------------------------------------------------------------

/// Names ascend, so that each stands once.
pub open spec fn names_ascend(children: Seq<NodeView>) -> bool {
    forall|i: int, j: int|
        0 <= i < j < children.len() ==> text_before(
            (#[trigger] children[i]).name,
            (#[trigger] children[j]).name,
        )
}

/// In every node the names of the children ascend.
pub open spec fn well_formed(node: NodeView) -> bool
    decreases node,
{
    &&& names_ascend(node.children)
    &&& forall|i: int| 0 <= i < node.children.len() ==> well_formed(#[trigger] node.children[i])
}

// ---------------------------------------------------------------------------
// Insertion
// ---------------------------------------------------------------------------

/// Where a child of that name stands among the children, or is to stand.
pub open spec fn slot(children: Seq<NodeView>, name: Seq<char>) -> int
    decreases children.len(),
{
    if children.len() > 0 && text_before(children[0].name, name) {
        1 + slot(children.skip(1), name)
    } else {
        0
    }
}

/// Whether there is a child of that name.
pub open spec fn has_child(children: Seq<NodeView>, name: Seq<char>) -> bool {
    slot(children, name) < children.len() && children[slot(children, name)].name == name
}

/// An expanded directory without children.
pub open spec fn dir_node(name: Seq<char>, path: PathView) -> NodeView {
    NodeView {
        name,
        path: path.steps,
        written: path.written,
        is_dir: true,
        expanded: true,
        children: seq![],
        file_info: None,
        group_index: None,
    }
}

/// A duplicate file of a group.
pub open spec fn file_node(name: Seq<char>, info: FileView, group: usize) -> NodeView {
    NodeView {
        name,
        path: info.path,
        written: info.written,
        is_dir: false,
        expanded: false,
        children: seq![],
        file_info: Some(info),
        group_index: Some(group),
    }
}

/// The tree once a file has been inserted below `node`, at the end of the given steps. The
/// directories on the way are made where they are missing; a file that is already there stays.
pub open spec fn inserted(node: NodeView, steps: Seq<Step>, info: FileView, group: usize) -> NodeView
    decreases steps.len(),
{
    if steps.len() == 0 {
        node
    } else {
        let name = step_text(steps[0]);
        let at = slot(node.children, name);
        if steps.len() == 1 {
            if has_child(node.children, name) {
                node
            } else {
                NodeView {
                    children: node.children.insert(at, file_node(name, info, group)),
                    ..node
                }
            }
        } else if has_child(node.children, name) {
            let child = inserted(node.children[at], steps.skip(1), info, group);
            NodeView { children: node.children.update(at, child), ..node }
        } else {
            let child = inserted(
                dir_node(name, full_join_text(node.full_path(), name)),
                steps.skip(1),
                info,
                group,
            );
            NodeView { children: node.children.insert(at, child), ..node }
        }
    }
}

/// The slot of a name lies behind the children that come before it, and no further.
pub proof fn lemma_slot(children: Seq<NodeView>, name: Seq<char>, k: int)
    requires
        0 <= k <= children.len(),
        forall|j: int| 0 <= j < k ==> text_before((#[trigger] children[j]).name, name),
        k < children.len() ==> !text_before(children[k].name, name),
    ensures
        slot(children, name) == k,
    decreases k,
{
    if k > 0 {
        assert(text_before(children[0].name, name));
        let rest = children.skip(1);
        assert forall|j: int| 0 <= j < k - 1 implies text_before(
            (#[trigger] rest[j]).name,
            name,
        ) by {
            assert(rest[j] == children[j + 1]);
        }
        lemma_slot(rest, name, k - 1);
    }
}

/// The slot parts the names that come before from those that do not.
pub proof fn lemma_slot_parts(children: Seq<NodeView>, name: Seq<char>)
    ensures
        0 <= slot(children, name) <= children.len(),
        forall|j: int|
            0 <= j < slot(children, name) ==> text_before((#[trigger] children[j]).name, name),
        slot(children, name) < children.len() ==> !text_before(
            children[slot(children, name)].name,
            name,
        ),
    decreases children.len(),
{
    if children.len() > 0 && text_before(children[0].name, name) {
        let rest = children.skip(1);
        lemma_slot_parts(rest, name);
        assert forall|j: int| 0 <= j < slot(children, name) implies text_before(
            (#[trigger] children[j]).name,
            name,
        ) by {
            if j > 0 {
                assert(rest[j - 1] == children[j]);
            }
        }
    }
}

fn find_slot(children: &Vec<TreeNode>, name: &str) -> (r: usize)
    requires
        names_ascend(nodes_view(children@)),
    ensures
        r <= children@.len(),
        r == slot(nodes_view(children@), name@),
{
    let ghost views = nodes_view(children@);
    let mut lo: usize = 0;
    let mut hi: usize = children.len();
    proof {
        lemma_text_order();
    }
    while lo < hi
        invariant
            views == nodes_view(children@),
            names_ascend(views),
            lo <= hi <= children@.len(),
            forall|j: int| 0 <= j < lo ==> text_before((#[trigger] views[j]).name, name@),
            forall|j: int| hi <= j < views.len() ==> !text_before((#[trigger] views[j]).name, name@),
            total_order(lex(char_lt())),
        decreases hi - lo,
    {
        let mid: usize = lo + (hi - lo) / 2;
        let ghost texts = lex(char_lt());
        assert(views[mid as int] == children@[mid as int]@);
        if text_is_before(children[mid].name.as_str(), name) {
            assert forall|j: int| 0 <= j < mid + 1 implies text_before(
                (#[trigger] views[j]).name,
                name@,
            ) by {
                if j < mid {
                    assert(texts(views[j].name, views[mid as int].name));
                    assert(texts(views[mid as int].name, name@));
                }
            }
            lo = mid + 1;
        } else {
            assert forall|j: int| mid <= j < views.len() implies !text_before(
                (#[trigger] views[j]).name,
                name@,
            ) by {
                if j > mid && text_before(views[j].name, name@) {
                    assert(texts(views[mid as int].name, views[j].name));
                    assert(texts(views[j].name, name@));
                    assert(texts(views[mid as int].name, name@));
                }
            }
            hi = mid;
        }
    }
    proof {
        lemma_slot(views, name@, lo as int);
    }
    lo
}

impl TreeNode {
    /// An expanded directory without children.
    pub fn new_dir(name: &str, path: FilePath) -> (r: TreeNode)
        ensures
            r@ == dir_node(name@, path.full()),
    {
        let r = TreeNode {
            name: name.to_owned(),
            path,
            is_dir: true,
            expanded: true,
            children: Vec::new(),
            file_info: None,
            group_index: None,
        };
        assert(r@.children =~= Seq::<NodeView>::empty());
        r
    }

    fn new_file(name: String, info: FileInfo, group_idx: usize) -> (r: TreeNode)
        ensures
            r@ == file_node(name@, info@, group_idx),
    {
        let path = info.path.clone();
        let r = TreeNode {
            name,
            path,
            is_dir: false,
            expanded: false,
            children: Vec::new(),
            file_info: Some(info),
            group_index: Some(group_idx),
        };
        assert(r@.children =~= Seq::<NodeView>::empty());
        r
    }

    /// Inserts a file at a path relative to this node.
    pub fn insert_file(&mut self, rel_path: &FilePath, info: FileInfo, group_idx: usize)
        requires
            well_formed(old(self)@),
        ensures
            final(self)@ == inserted(old(self)@, rel_path@, info@, group_idx),
    {
        let components = rel_path.components();
        assert(rel_path@.skip(0) =~= rel_path@);
        self.insert_from(&components, 0, info, group_idx);
    }

    fn insert_from(
        &mut self,
        components: &Vec<Component>,
        from: usize,
        info: FileInfo,
        group_idx: usize,
    )
        requires
            well_formed(old(self)@),
            from <= components@.len(),
        ensures
            final(self)@ == inserted(
                old(self)@,
                components_view(components@).skip(from as int),
                info@,
                group_idx,
            ),
        decreases components@.len() - from,
    {
        let ghost all = components_view(components@);
        let ghost steps = all.skip(from as int);
        let ghost before = self@;
        if from == components.len() {
            return;
        }
        let name = components[from].to_text();
        assert(steps[0] == components@[from as int]@);
        proof {
            lemma_children_view(*self);
            lemma_slot_parts(before.children, name@);
        }
        let at: usize = find_slot(&self.children, name.as_str());
        let found: bool = at < self.children.len() && text_equals(
            self.children[at].name.as_str(),
            name.as_str(),
        );
        assert(found == has_child(before.children, name@));
        if from + 1 == components.len() {
            if !found {
                let ghost label = name@;
                let leaf = TreeNode::new_file(name, info, group_idx);
                let ghost leaf_view = leaf@;
                self.children.insert(at, leaf);
                proof {
                    lemma_children_view(*self);
                    assert(self@.children =~= before.children.insert(at as int, leaf_view));
                }
            }
        } else {
            if !found {
                let dir = TreeNode::new_dir(name.as_str(), self.path.join_text(name.as_str()));
                self.children.insert(at, dir);
            }
            let ghost middle = self.children@;
            proof {
                assert(steps.skip(1) =~= all.skip(from + 1));
            }
            let ghost child = self.children@[at as int]@;
            proof {
                assert(well_formed(child));
            }
            self.children[at].insert_from(components, from + 1, info, group_idx);
            proof {
                lemma_children_view(*self);
                let grown = inserted(child, steps.skip(1), info@, group_idx);
                assert(self.children@[at as int]@ == grown);
                if found {
                    assert(self@.children =~= before.children.update(at as int, grown));
                } else {
                    assert(self@.children =~= before.children.insert(at as int, grown));
                }
            }
        }
    }
}

// ---------------------------------------------------------------------------
// Totals
// ---------------------------------------------------------------------------

/// How many files there are in a tree.
pub open spec fn file_count(node: NodeView) -> nat
    decreases node, 0int,
{
    if node.is_dir {
        files_in(node.children, node.children.len() as int)
    } else {
        1
    }
}

/// How many files there are in the first `k` of some trees.
pub open spec fn files_in(children: Seq<NodeView>, k: int) -> nat
    decreases children, k,
{
    if 0 < k <= children.len() {
        files_in(children, k - 1) + file_count(children[k - 1])
    } else {
        0
    }
}

/// The size that a node has of itself.
pub open spec fn own_size(node: NodeView) -> nat {
    match node.file_info {
        Some(f) => f.size as nat,
        None => 0,
    }
}

/// The size of all files in a tree.
pub open spec fn total_size(node: NodeView) -> nat
    decreases node, 0int,
{
    if node.is_dir {
        sizes_in(node.children, node.children.len() as int)
    } else {
        own_size(node)
    }
}

/// The size of all files in the first `k` of some trees.
pub open spec fn sizes_in(children: Seq<NodeView>, k: int) -> nat
    decreases children, k,
{
    if 0 < k <= children.len() {
        sizes_in(children, k - 1) + total_size(children[k - 1])
    } else {
        0
    }
}

/// More nodes have no fewer files, and none of them more than all.
pub proof fn lemma_files_in_grows(children: Seq<NodeView>, j: int, k: int)
    requires
        0 <= j <= k <= children.len(),
    ensures
        files_in(children, j) <= files_in(children, k),
        j < k ==> file_count(children[j]) <= files_in(children, k),
    decreases k - j,
{
    if j < k {
        lemma_files_in_grows(children, j + 1, k);
    }
}

/// More nodes have no fewer bytes.
pub proof fn lemma_sizes_in_grows(children: Seq<NodeView>, j: int, k: int)
    requires
        0 <= j <= k <= children.len(),
    ensures
        sizes_in(children, j) <= sizes_in(children, k),
    decreases k - j,
{
    if j < k {
        lemma_sizes_in_grows(children, j + 1, k);
    }
}

/// The number of files in a tree.
pub fn count_files(node: &TreeNode) -> (r: usize)
    requires
        file_count(node@) <= usize::MAX,
    ensures
        r == file_count(node@),
    decreases node,
{
    if !node.is_dir {
        return 1;
    }
    let mut sum: usize = 0;
    let mut i: usize = 0;
    proof {
        lemma_children_view(*node);
    }
    while i < node.children.len()
        invariant
            i <= node.children@.len(),
            node@.children.len() == node.children@.len(),
            forall|j: int|
                0 <= j < node.children@.len() ==> node@.children[j] == #[trigger] node.children@[j]@,
            sum == files_in(node@.children, i as int),
            files_in(node@.children, node.children@.len() as int) <= usize::MAX,
        decreases node.children@.len() - i,
    {
        proof {
            lemma_files_in_grows(node@.children, i + 1, node.children@.len() as int);
        }
        sum += count_files(&node.children[i]);
        i += 1;
    }
    sum
}

/// The size of all files in a tree.
pub fn dir_total_size(node: &TreeNode) -> (r: u64)
    requires
        total_size(node@) <= u64::MAX,
    ensures
        r == total_size(node@),
    decreases node,
{
    if !node.is_dir {
        return match &node.file_info {
            Some(f) => f.size,
            None => 0,
        };
    }
    let mut sum: u64 = 0;
    let mut i: usize = 0;
    proof {
        lemma_children_view(*node);
    }
    while i < node.children.len()
        invariant
            i <= node.children@.len(),
            node@.children.len() == node.children@.len(),
            forall|j: int|
                0 <= j < node.children@.len() ==> node@.children[j] == #[trigger] node.children@[j]@,
            sum == sizes_in(node@.children, i as int),
            sizes_in(node@.children, node.children@.len() as int) <= u64::MAX,
        decreases node.children@.len() - i,
    {
        proof {
            lemma_sizes_in_grows(node@.children, i + 1, node.children@.len() as int);
        }
        sum += dir_total_size(&node.children[i]);
        i += 1;
    }
    sum
}

// ---------------------------------------------------------------------------
// Flattening
// ---------------------------------------------------------------------------

/// The point in time that a node is dated by.
pub open spec fn own_date(node: NodeView) -> Option<int> {
    match node.file_info {
        Some(f) => match f.modified {
            Some(t) => Some(t as int),
            None => None,
        },
        None => None,
    }
}

/// What a node is sorted by: its name; its own size, the largest first; its date, the latest
/// first; or the number of its files, the most first.
pub open spec fn node_rank(node: NodeView, mode: SortMode) -> Rank {
    match mode {
        SortMode::Name => Rank::Text(node.name),
        SortMode::Size => Rank::Large(own_size(node) as int),
        SortMode::Date => Rank::Late(own_date(node)),
        SortMode::Count => Rank::Large(file_count(node) as int),
    }
}

/// What some nodes are sorted by.
pub open spec fn node_ranks(nodes: Seq<NodeView>, mode: SortMode) -> Seq<Rank> {
    nodes.map_values(|n: NodeView| node_rank(n, mode))
}

/// The displayed rows of a node at some depth: itself, then, where it is an expanded directory,
/// the rows of its children in their order.
pub open spec fn rows_of(node: NodeView, depth: nat, mode: SortMode) -> Seq<(nat, NodeView)>
    decreases node, 0int,
{
    if node.is_dir && node.expanded {
        seq![(depth, node)] + rows_upto(
            node.children,
            depth + 1,
            mode,
            node.children.len() as int,
        )
    } else {
        seq![(depth, node)]
    }
}

/// The displayed rows of the first `k` of some sibling nodes in their order.
pub open spec fn rows_upto(nodes: Seq<NodeView>, depth: nat, mode: SortMode, k: int) -> Seq<
    (nat, NodeView),
>
    decreases nodes, k,
{
    if k <= 0 {
        seq![]
    } else {
        let i = sorting(node_ranks(nodes, mode))[k - 1];
        if 0 <= i < nodes.len() {
            rows_upto(nodes, depth, mode, k - 1) + rows_of(nodes[i], depth, mode)
        } else {
            rows_upto(nodes, depth, mode, k - 1)
        }
    }
}

/// The displayed rows of a tree: those of the children of its root, each with its depth.
pub open spec fn rows(tree: NodeView, mode: SortMode) -> Seq<(nat, NodeView)> {
    rows_upto(tree.children, 0, mode, tree.children.len() as int)
}

/// What a flattened tree stands for.
pub open spec fn rows_view<'a>(flat: Seq<(usize, &'a TreeNode)>) -> Seq<(nat, NodeView)> {
    flat.map_values(|r: (usize, &'a TreeNode)| (r.0 as nat, r.1@))
}

/// The counts by which nodes are sorted fit into machine numbers.
pub open spec fn counts_fit(nodes: Seq<NodeView>, mode: SortMode) -> bool {
    mode == SortMode::Count ==> files_in(nodes, nodes.len() as int) <= usize::MAX
}

fn node_key<'a>(node: &'a TreeNode, mode: SortMode) -> (r: Key<'a>)
    requires
        mode == SortMode::Count ==> file_count(node@) <= usize::MAX,
    ensures
        r@ == node_rank(node@, mode),
{
    match mode {
        SortMode::Name => Key::Text(&node.name),
        SortMode::Size => Key::Large(
            match &node.file_info {
                Some(f) => f.size,
                None => 0,
            },
        ),
        SortMode::Date => Key::Late(
            match &node.file_info {
                Some(f) => f.modified,
                None => None,
            },
        ),
        SortMode::Count => Key::Large(count_files(node) as u64),
    }
}

fn sort_nodes(nodes: &Vec<TreeNode>, mode: SortMode) -> (r: Vec<usize>)
    requires
        counts_fit(nodes_view(nodes@), mode),
    ensures
        in_order(node_ranks(nodes_view(nodes@), mode), positions(r@)),
        positions(r@) == sorting(node_ranks(nodes_view(nodes@), mode)),
{
    let ghost views = nodes_view(nodes@);
    let mut keys: Vec<Key> = Vec::new();
    let mut i: usize = 0;
    while i < nodes.len()
        invariant
            i <= nodes@.len(),
            views == nodes_view(nodes@),
            counts_fit(views, mode),
            keys@.len() == i,
            forall|j: int| 0 <= j < i ==> (#[trigger] keys@[j])@ == node_rank(views[j], mode),
        decreases nodes@.len() - i,
    {
        proof {
            lemma_files_in_grows(views, i as int, views.len() as int);
        }
        keys.push(node_key(&nodes[i], mode));
        i += 1;
    }
    assert(ranks(keys@) =~= node_ranks(views, mode));
    stable_sorting(&keys)
}

impl TreeNode {
    /// Flattens the tree into displayable rows in the order of names.
    pub fn flatten(&self) -> (r: Vec<(usize, &TreeNode)>)
        ensures
            rows_view(r@) == rows(self@, SortMode::Name),
    {
        self.flatten_sorted(SortMode::Name)
    }

    /// Flattens the tree into displayable rows, with each directory sorted by `mode`.
    pub fn flatten_sorted(&self, mode: SortMode) -> (r: Vec<(usize, &TreeNode)>)
        requires
            counts_fit(self@.children, mode),
        ensures
            rows_view(r@) == rows(self@, mode),
    {
        let mut out: Vec<(usize, &TreeNode)> = Vec::new();
        proof {
            lemma_children_view(*self);
        }
        TreeNode::push_children(&self.children, 0, mode, &mut out);
        assert(rows_view(out@) =~= rows(self@, mode));
        out
    }

    fn push_children<'a>(
        nodes: &'a Vec<TreeNode>,
        depth: usize,
        mode: SortMode,
        out: &mut Vec<(usize, &'a TreeNode)>,
    )
        requires
            counts_fit(nodes_view(nodes@), mode),
            depth <= old(out)@.len(),
        ensures
            final(out)@.len() >= old(out)@.len(),
            rows_view(final(out)@) == rows_view(old(out)@) + rows_upto(
                nodes_view(nodes@),
                depth as nat,
                mode,
                nodes@.len() as int,
            ),
        decreases nodes, 0int,
    {
        let ghost views = nodes_view(nodes@);
        let ghost before = rows_view(out@);
        let order = sort_nodes(nodes, mode);
        let ghost o = sorting(node_ranks(views, mode));
        let mut k: usize = 0;
        assert(rows_view(out@) =~= before + rows_upto(views, depth as nat, mode, 0));
        while k < order.len()
            invariant
                views == nodes_view(nodes@),
                counts_fit(views, mode),
                o == sorting(node_ranks(views, mode)),
                in_order(node_ranks(views, mode), o),
                o == positions(order@),
                order@.len() == nodes@.len(),
                k <= order@.len(),
                depth <= old(out)@.len() <= out@.len(),
                rows_view(out@) == before + rows_upto(views, depth as nat, mode, k as int),
            decreases order@.len() - k,
        {
            assert(o[k as int] == order@[k as int]);
            let i: usize = order[k];
            proof {
                lemma_files_in_grows(views, i as int, views.len() as int);
                assert(views[i as int] == nodes@[i as int]@);
            }
            TreeNode::push_rows(&nodes[i], depth, mode, out);
            k += 1;
            assert(rows_view(out@) =~= before + rows_upto(views, depth as nat, mode, k as int));
        }
    }

    fn push_rows<'a>(
        node: &'a TreeNode,
        depth: usize,
        mode: SortMode,
        out: &mut Vec<(usize, &'a TreeNode)>,
    )
        requires
            mode == SortMode::Count ==> file_count(node@) <= usize::MAX,
            depth <= old(out)@.len(),
        ensures
            final(out)@.len() >= old(out)@.len(),
            rows_view(final(out)@) == rows_view(old(out)@) + rows_of(node@, depth as nat, mode),
        decreases node, 0int,
    {
        let ghost before = rows_view(out@);
        out.push((depth, node));
        assert(rows_view(out@) =~= before.push((depth as nat, node@)));
        if node.is_dir && node.expanded {
            proof {
                lemma_children_view(*node);
            }
            let room: usize = out.len();
            assert(depth + 1 <= room);
            TreeNode::push_children(&node.children, depth + 1, mode, out);
        }
        assert(rows_view(out@) =~= before + rows_of(node@, depth as nat, mode));
    }
}

// ---------------------------------------------------------------------------
// Expanding and collapsing
// ---------------------------------------------------------------------------

/// The tree once the directory at `path` has been expanded or collapsed.
pub open spec fn toggled(node: NodeView, path: Seq<Step>) -> NodeView
    decreases node,
{
    if node.path == path && node.is_dir {
        NodeView { expanded: !node.expanded, ..node }
    } else {
        NodeView {
            children: Seq::new(
                node.children.len(),
                |i: int|
                    if 0 <= i < node.children.len() {
                        toggled(node.children[i], path)
                    } else {
                        arbitrary()
                    },
            ),
            ..node
        }
    }
}

/// The tree once every directory is expanded, or every directory is collapsed.
pub open spec fn all_set(node: NodeView, expanded: bool) -> NodeView
    decreases node,
{
    NodeView {
        expanded: if node.is_dir {
            expanded
        } else {
            node.expanded
        },
        children: Seq::new(
            node.children.len(),
            |i: int|
                if 0 <= i < node.children.len() {
                    all_set(node.children[i], expanded)
                } else {
                    arbitrary()
                },
        ),
        ..node
    }
}

impl TreeNode {
    /// Expands or collapses the directory at `path`.
    pub fn toggle_expand(&mut self, path: &FilePath)
        ensures
            final(self)@ == toggled(old(self)@, path@),
        decreases *old(self),
    {
        if self.is_dir && self.path.equals(path) {
            self.expanded = !self.expanded;
            proof {
                lemma_children_view(*self);
                lemma_children_view(*old(self));
                assert(self@.children =~= old(self)@.children);
            }
            return;
        }
        let ghost before = *self;
        let mut i: usize = 0;
        while i < self.children.len()
            invariant
                i <= self.children@.len() == before.children@.len(),
                before == *old(self),
                self.name == before.name,
                self.path == before.path,
                self.is_dir == before.is_dir,
                self.expanded == before.expanded,
                self.file_info == before.file_info,
                self.group_index == before.group_index,
                forall|j: int|
                    0 <= j < i ==> (#[trigger] self.children@[j])@ == toggled(
                        before.children@[j]@,
                        path@,
                    ),
                forall|j: int|
                    i <= j < before.children@.len() ==> #[trigger] self.children@[j]
                        == before.children@[j],
            decreases before.children@.len() - i,
        {
            assert(self.children@[i as int] == before.children@[i as int]);
            self.children[i].toggle_expand(path);
            i += 1;
        }
        proof {
            lemma_children_view(*self);
            lemma_children_view(before);
            assert(self@.children =~= toggled(before@, path@).children);
        }
    }

    /// Expands every directory, or collapses every directory.
    pub fn set_all_expanded(&mut self, expanded: bool)
        ensures
            final(self)@ == all_set(old(self)@, expanded),
        decreases *old(self),
    {
        let ghost before = *self;
        if self.is_dir {
            self.expanded = expanded;
        }
        let ghost shown = self.expanded;
        let mut i: usize = 0;
        while i < self.children.len()
            invariant
                i <= self.children@.len() == before.children@.len(),
                before == *old(self),
                self.name == before.name,
                self.path == before.path,
                self.is_dir == before.is_dir,
                self.expanded == shown,
                self.file_info == before.file_info,
                self.group_index == before.group_index,
                forall|j: int|
                    0 <= j < i ==> (#[trigger] self.children@[j])@ == all_set(
                        before.children@[j]@,
                        expanded,
                    ),
                forall|j: int|
                    i <= j < before.children@.len() ==> #[trigger] self.children@[j]
                        == before.children@[j],
            decreases before.children@.len() - i,
        {
            assert(self.children@[i as int] == before.children@[i as int]);
            self.children[i].set_all_expanded(expanded);
            i += 1;
        }
        proof {
            lemma_children_view(*self);
            lemma_children_view(before);
            assert(self@.children =~= all_set(before@, expanded).children);
        }
    }
}

// ---------------------------------------------------------------------------
// Building
// ---------------------------------------------------------------------------

/// The tree of a root once a file of a group has been added, where it lies below the root.
pub open spec fn file_added(
    tree: NodeView,
    root: Seq<Step>,
    file: FileView,
    group: usize,
) -> NodeView {
    match path_strip(file.path, root) {
        Some(rel) => inserted(tree, rel, file, group),
        None => tree,
    }
}

/// The tree once the first `k` files of a group have been added.
pub open spec fn group_added(
    tree: NodeView,
    root: Seq<Step>,
    files: Seq<FileView>,
    group: usize,
    k: int,
) -> NodeView
    decreases k,
{
    if 0 < k <= files.len() {
        file_added(group_added(tree, root, files, group, k - 1), root, files[k - 1], group)
    } else {
        tree
    }
}

/// The tree of a root that holds the files of the first `k` groups, each with its number.
pub open spec fn tree_upto(groups: Seq<(usize, Seq<FileView>)>, root: PathView, k: int) -> NodeView
    decreases k,
{
    if 0 < k <= groups.len() {
        let (number, files) = groups[k - 1];
        group_added(
            tree_upto(groups, root, k - 1),
            root.steps,
            files,
            number,
            files.len() as int,
        )
    } else {
        dir_node(seq![], root)
    }
}

/// The tree of a root that holds the files of some groups.
pub open spec fn tree_of(groups: Seq<(usize, Seq<FileView>)>, root: PathView) -> NodeView {
    tree_upto(groups, root, groups.len() as int)
}

/// Groups with their positions.
pub open spec fn numbered(groups: Seq<Seq<FileView>>) -> Seq<(usize, Seq<FileView>)> {
    Seq::new(groups.len(), |i: int| (i as usize, groups[i]))
}

/// What groups with their numbers stand for.
pub open spec fn numbered_view<'a>(groups: Seq<(usize, &'a Vec<FileInfo>)>) -> Seq<
    (usize, Seq<FileView>),
> {
    groups.map_values(|g: (usize, &'a Vec<FileInfo>)| (g.0, group_view(g.1@)))
}

proof fn lemma_insert_keeps_order(children: Seq<NodeView>, child: NodeView)
    requires
        names_ascend(children),
        !has_child(children, child.name),
    ensures
        0 <= slot(children, child.name) <= children.len(),
        names_ascend(children.insert(slot(children, child.name), child)),
{
    let name = child.name;
    let at = slot(children, name);
    let more = children.insert(at, child);
    let texts = lex(char_lt());
    lemma_slot_parts(children, name);
    lemma_text_order();
    assert forall|j: int| at <= j < children.len() implies text_before(
        name,
        (#[trigger] children[j]).name,
    ) by {
        assert(texts(name, children[at].name)) by {
            assert(!texts(children[at].name, name));
        }
        if j > at {
            assert(texts(children[at].name, children[j].name));
        }
    }
    assert forall|i: int, j: int| 0 <= i < j < more.len() implies text_before(
        (#[trigger] more[i]).name,
        (#[trigger] more[j]).name,
    ) by {
        let i0 = if i < at {
            i
        } else {
            i - 1
        };
        let j0 = if j < at {
            j
        } else {
            j - 1
        };
        if i != at {
            assert(more[i] == children[i0]);
        }
        if j != at {
            assert(more[j] == children[j0]);
        }
    }
}

/// Inserting a file keeps a tree well-formed, and keeps what the node itself is.
pub proof fn insertion_keeps_well_formed(
    node: NodeView,
    steps: Seq<Step>,
    info: FileView,
    group: usize,
)
    requires
        well_formed(node),
    ensures
        well_formed(inserted(node, steps, info, group)),
        inserted(node, steps, info, group) == (NodeView {
            children: inserted(node, steps, info, group).children,
            ..node
        }),
    decreases steps.len(),
{
    if steps.len() > 0 {
        let name = step_text(steps[0]);
        let at = slot(node.children, name);
        let after = inserted(node, steps, info, group);
        lemma_slot_parts(node.children, name);
        if !has_child(node.children, name) {
            let child = if steps.len() == 1 {
                file_node(name, info, group)
            } else {
                let fresh = dir_node(name, full_join_text(node.full_path(), name));
                insertion_keeps_well_formed(fresh, steps.skip(1), info, group);
                inserted(fresh, steps.skip(1), info, group)
            };
            lemma_insert_keeps_order(node.children, child);
            assert forall|i: int| 0 <= i < after.children.len() implies well_formed(
                #[trigger] after.children[i],
            ) by {
                if i < at {
                    assert(after.children[i] == node.children[i]);
                } else if i > at {
                    assert(after.children[i] == node.children[i - 1]);
                } else {
                    assert(after.children[i] == child);
                }
            }
        } else if steps.len() > 1 {
            let child = node.children[at];
            insertion_keeps_well_formed(child, steps.skip(1), info, group);
            assert forall|i: int, j: int| 0 <= i < j < after.children.len() implies text_before(
                (#[trigger] after.children[i]).name,
                (#[trigger] after.children[j]).name,
            ) by {
                assert(after.children[i].name == node.children[i].name);
                assert(after.children[j].name == node.children[j].name);
            }
            assert forall|i: int| 0 <= i < after.children.len() implies well_formed(
                #[trigger] after.children[i],
            ) by {
                if i != at {
                    assert(after.children[i] == node.children[i]);
                }
            }
        }
    }
}

/// Adding the files of a group keeps a tree well-formed.
pub proof fn lemma_group_added_well_formed(
    tree: NodeView,
    root: Seq<Step>,
    files: Seq<FileView>,
    group: usize,
    k: int,
)
    requires
        well_formed(tree),
    ensures
        well_formed(group_added(tree, root, files, group, k)),
    decreases k,
{
    if 0 < k <= files.len() {
        let before = group_added(tree, root, files, group, k - 1);
        lemma_group_added_well_formed(tree, root, files, group, k - 1);
        if let Some(rel) = path_strip(files[k - 1].path, root) {
            insertion_keeps_well_formed(before, rel, files[k - 1], group);
        }
    }
}

/// A tree that was built is well-formed.
pub proof fn built_trees_are_well_formed(
    groups: Seq<(usize, Seq<FileView>)>,
    root: PathView,
    k: int,
)
    ensures
        well_formed(tree_upto(groups, root, k)),
    decreases k,
{
    if 0 < k <= groups.len() {
        built_trees_are_well_formed(groups, root, k - 1);
        let (number, files) = groups[k - 1];
        lemma_group_added_well_formed(
            tree_upto(groups, root, k - 1),
            root.steps,
            files,
            number,
            files.len() as int,
        );
    }
}

/// Builds the tree of the files that have duplicates, each group under its position.
pub fn build_tree(groups: &DuplicateGroups, root: &FilePath) -> (r: TreeNode)
    ensures
        r@ == tree_of(numbered(groups_view(groups@)), root.full()),
        well_formed(r@),
{
    let mut refs: Vec<(usize, &Vec<FileInfo>)> = Vec::new();
    let mut i: usize = 0;
    while i < groups.len()
        invariant
            i <= groups@.len(),
            refs@.len() == i,
            forall|j: int| 0 <= j < i ==> (#[trigger] refs@[j]).0 == j && refs@[j].1 == groups@[j],
        decreases groups@.len() - i,
    {
        refs.push((i, &groups[i]));
        i += 1;
    }
    assert(numbered_view(refs@) =~= numbered(groups_view(groups@)));
    build_tree_indexed(&refs, root)
}

/// Builds the tree of the files of some groups, each group under its given number.
pub fn build_tree_indexed(groups: &Vec<(usize, &Vec<FileInfo>)>, root: &FilePath) -> (r: TreeNode)
    ensures
        r@ == tree_of(numbered_view(groups@), root.full()),
        well_formed(r@),
{
    proof {
        reveal_strlit("");
    }
    let mut tree = TreeNode::new_dir("", root.clone());
    let ghost gs = numbered_view(groups@);
    assert(""@ =~= Seq::<char>::empty());
    let mut i: usize = 0;
    while i < groups.len()
        invariant
            i <= groups@.len(),
            gs == numbered_view(groups@),
            tree@ == tree_upto(gs, root.full(), i as int),
        decreases groups@.len() - i,
    {
        let number: usize = groups[i].0;
        let group: &Vec<FileInfo> = groups[i].1;
        let ghost before = tree@;
        let ghost files = group_view(group@);
        assert(gs[i as int] == (number, files));
        proof {
            built_trees_are_well_formed(gs, root.full(), i as int);
        }
        let mut k: usize = 0;
        while k < group.len()
            invariant
                k <= group@.len(),
                files == group_view(group@),
                well_formed(before),
                tree@ == group_added(before, root@, files, number, k as int),
            decreases group@.len() - k,
        {
            proof {
                lemma_group_added_well_formed(before, root@, files, number, k as int);
                assert(files[k as int] == group@[k as int]@);
            }
            if let Some(rel) = group[k].path.strip_prefix(root) {
                tree.insert_file(&rel, group[k].clone(), number);
            }
            k += 1;
        }
        i += 1;
    }
    proof {
        built_trees_are_well_formed(gs, root.full(), i as int);
    }
    tree
}

} // verus!
