//! Which nodes of a tree are displayed, and in what order.
use vstd::prelude::*;

use crate::order::{comes, lemma_comes_irreflexive, sorting, sorting_exists};
use crate::tree::{node_ranks, rows, rows_of, rows_upto, NodeView, SortMode};

verus! {

/// The node at a place below some sibling nodes. A place tells for each level which child leads on.
pub open spec fn node_in(nodes: Seq<NodeView>, place: Seq<int>) -> NodeView
    decreases place.len(),
{
    if place.len() <= 1 {
        nodes[place[0]]
    } else {
        node_in(nodes[place[0]].children, place.skip(1))
    }
}

/// There is a node at a place below some sibling nodes, and all that it lies in are expanded
/// directories.
pub open spec fn shown_in(nodes: Seq<NodeView>, place: Seq<int>) -> bool
    decreases place.len(),
{
    &&& place.len() > 0
    &&& 0 <= place[0] < nodes.len()
    &&& place.len() > 1 ==> {
        let node = nodes[place[0]];
        node.is_dir && node.expanded && shown_in(node.children, place.skip(1))
    }
}

/// One place comes before another in preorder: what lies in a node comes behind it, and siblings
/// come in the order of their ranks, equal ranks in the order of their names.
pub open spec fn comes_first(
    nodes: Seq<NodeView>,
    mode: SortMode,
    a: Seq<int>,
    b: Seq<int>,
) -> bool
    decreases a.len(),
{
    if a.len() == 0 {
        b.len() > 0
    } else if b.len() == 0 {
        false
    } else if a[0] == b[0] {
        comes_first(nodes[a[0]].children, mode, a.skip(1), b.skip(1))
    } else {
        comes(node_ranks(nodes, mode), a[0], b[0])
    }
}

/// Places, each one level deeper, below the child `i`.
pub open spec fn one_deeper(i: int, places: Seq<Seq<int>>) -> Seq<Seq<int>> {
    places.map_values(|p: Seq<int>| seq![i] + p)
}

/// The places of the displayed rows of a node, seen from itself.
pub open spec fn places_of(node: NodeView, mode: SortMode) -> Seq<Seq<int>>
    decreases node, 0int,
{
    let own = seq![Seq::<int>::empty()];
    if node.is_dir && node.expanded {
        own + places_upto(node.children, mode, node.children.len() as int)
    } else {
        own
    }
}

/// The places of the displayed rows of the first `k` of some sibling nodes in their order.
pub open spec fn places_upto(nodes: Seq<NodeView>, mode: SortMode, k: int) -> Seq<Seq<int>>
    decreases nodes, k,
{
    if k <= 0 {
        seq![]
    } else {
        let i = sorting(node_ranks(nodes, mode))[k - 1];
        if 0 <= i < nodes.len() {
            places_upto(nodes, mode, k - 1) + one_deeper(i, places_of(nodes[i], mode))
        } else {
            places_upto(nodes, mode, k - 1)
        }
    }
}

/// The places of the displayed rows of a tree.
pub open spec fn row_places(tree: NodeView, mode: SortMode) -> Seq<Seq<int>> {
    places_upto(tree.children, mode, tree.children.len() as int)
}

/// A place is that of the node itself, or of something that is displayed in it.
spec fn shown_of(node: NodeView, place: Seq<int>) -> bool {
    place.len() == 0 || (node.is_dir && node.expanded && shown_in(node.children, place))
}

/// What is displayed at a place of a node.
spec fn node_of(node: NodeView, place: Seq<int>) -> NodeView {
    if place.len() == 0 {
        node
    } else {
        node_in(node.children, place)
    }
}

/// Places stand in preorder.
spec fn in_preorder(nodes: Seq<NodeView>, mode: SortMode, places: Seq<Seq<int>>) -> bool {
    forall|i: int, j: int|
        0 <= i < j < places.len() ==> comes_first(
            nodes,
            mode,
            #[trigger] places[i],
            #[trigger] places[j],
        )
}

proof fn lemma_places_of(node: NodeView, depth: nat, mode: SortMode)
    ensures
        ({
            let places = places_of(node, mode);
            let rows = rows_of(node, depth, mode);
            &&& places.len() == rows.len()
            &&& forall|j: int|
                0 <= j < places.len() ==> shown_of(node, #[trigger] places[j]) && rows[j] == (
                    depth + places[j].len(),
                    node_of(node, places[j]),
                )
            &&& forall|p: Seq<int>| #[trigger] shown_of(node, p) ==> places.contains(p)
            &&& in_preorder(node.children, mode, places)
        }),
    decreases node, 0int,
{
    let places = places_of(node, mode);
    let rows = rows_of(node, depth, mode);
    let own = Seq::<int>::empty();
    assert(places[0] == own);
    if node.is_dir && node.expanded {
        let len = node.children.len() as int;
        let below = places_upto(node.children, mode, len);
        let below_rows = rows_upto(node.children, depth + 1, mode, len);
        lemma_places_upto(node.children, depth + 1, mode, len);
        sorting_exists(node_ranks(node.children, mode));
        assert forall|j: int| 0 <= j < places.len() implies shown_of(node, #[trigger] places[j])
            && rows[j] == (depth + places[j].len(), node_of(node, places[j])) by {
            if j > 0 {
                assert(places[j] == below[j - 1]);
                assert(rows[j] == below_rows[j - 1]);
            }
        }
        assert forall|p: Seq<int>| #[trigger] shown_of(node, p) implies places.contains(p) by {
            if p.len() == 0 {
                assert(p =~= own);
            } else {
                let o = sorting(node_ranks(node.children, mode));
                assert(o.contains(p[0]));
                assert(o.take(len) =~= o);
                let i = choose|i: int| 0 <= i < below.len() && below[i] == p;
                assert(places[i + 1] == p);
            }
        }
        assert forall|i: int, j: int| 0 <= i < j < places.len() implies comes_first(
            node.children,
            mode,
            #[trigger] places[i],
            #[trigger] places[j],
        ) by {
            assert(places[j] == below[j - 1]);
            if i > 0 {
                assert(places[i] == below[i - 1]);
            } else {
                assert(shown_in(node.children, below[j - 1]));
            }
        }
    } else {
        assert forall|p: Seq<int>| #[trigger] shown_of(node, p) implies places.contains(p) by {
            assert(p =~= own);
        }
    }
}

proof fn lemma_places_upto(nodes: Seq<NodeView>, depth: nat, mode: SortMode, k: int)
    requires
        0 <= k <= nodes.len(),
    ensures
        ({
            let places = places_upto(nodes, mode, k);
            let rows = rows_upto(nodes, depth, mode, k);
            let o = sorting(node_ranks(nodes, mode));
            &&& places.len() == rows.len()
            &&& forall|j: int|
                0 <= j < places.len() ==> {
                    &&& shown_in(nodes, #[trigger] places[j])
                    &&& o.take(k).contains(places[j][0])
                    &&& rows[j] == ((depth + places[j].len() - 1) as nat, node_in(nodes, places[j]))
                }
            &&& forall|p: Seq<int>|
                #![trigger shown_in(nodes, p)]
                shown_in(nodes, p) && o.take(k).contains(p[0]) ==> places.contains(p)
            &&& in_preorder(nodes, mode, places)
        }),
    decreases nodes, k,
{
    let keys = node_ranks(nodes, mode);
    let o = sorting(keys);
    sorting_exists(keys);
    if k > 0 {
        let fewer = o.take(k - 1);
        let more = o.take(k);
        let at = o[k - 1];
        assert(0 <= at < nodes.len());
        let node = nodes[at];
        let places = places_upto(nodes, mode, k);
        let rows = rows_upto(nodes, depth, mode, k);
        let before = places_upto(nodes, mode, k - 1);
        let before_rows = rows_upto(nodes, depth, mode, k - 1);
        let inner = places_of(node, mode);
        let own = one_deeper(at, inner);
        let own_rows = rows_of(node, depth, mode);
        lemma_places_upto(nodes, depth, mode, k - 1);
        lemma_places_of(node, depth, mode);
        assert(places == before + own);
        assert(rows == before_rows + own_rows);
        assert(o.take(k) =~= o.take(k - 1).push(at));
        assert(o.take(k)[k - 1] == at);
        assert forall|j: int| 0 <= j < own.len() implies {
            &&& (#[trigger] own[j]).len() == inner[j].len() + 1
            &&& own[j][0] == at
            &&& own[j].skip(1) == inner[j]
        } by {
            assert(own[j].skip(1) =~= inner[j]);
        }
        assert forall|j: int| 0 <= j < places.len() implies {
            &&& shown_in(nodes, #[trigger] places[j])
            &&& o.take(k).contains(places[j][0])
            &&& rows[j] == ((depth + places[j].len() - 1) as nat, node_in(nodes, places[j]))
        } by {
            if j < before.len() {
                assert(places[j] == before[j]);
                assert(rows[j] == before_rows[j]);
                let i = choose|i: int| 0 <= i < fewer.len() && fewer[i] == before[j][0];
                assert(o.take(k)[i] == before[j][0]);
            } else {
                let i = j - before.len();
                assert(places[j] == own[i]);
                assert(rows[j] == own_rows[i]);
                assert(shown_of(node, inner[i]));
            }
        }
        assert forall|p: Seq<int>|
            #![trigger shown_in(nodes, p)]
            shown_in(nodes, p) && o.take(k).contains(p[0]) implies places.contains(p) by {
            if p[0] == at {
                let q = p.skip(1);
                assert(shown_of(node, q));
                let i = choose|i: int| 0 <= i < inner.len() && inner[i] == q;
                assert(own[i] =~= p);
                assert(places[before.len() + i] == p);
            } else {
                let i = choose|i: int| 0 <= i < more.len() && more[i] == p[0];
                assert(o.take(k - 1)[i] == p[0]);
                assert(before.contains(p));
                let j = choose|j: int| 0 <= j < before.len() && before[j] == p;
                assert(places[j] == p);
            }
        }
        assert forall|i: int, j: int| 0 <= i < j < places.len() implies comes_first(
            nodes,
            mode,
            #[trigger] places[i],
            #[trigger] places[j],
        ) by {
            if j < before.len() {
                assert(places[i] == before[i] && places[j] == before[j]);
            } else if i >= before.len() {
                let a = i - before.len();
                let b = j - before.len();
                assert(places[i] == own[a] && places[j] == own[b]);
                assert(comes_first(node.children, mode, inner[a], inner[b]));
            } else {
                assert(places[i] == before[i] && places[j] == own[j - before.len()]);
                let r = choose|r: int| 0 <= r < fewer.len() && fewer[r] == before[i][0];
                assert(o[r] == before[i][0]);
                assert(comes(keys, o[r], o[k - 1]));
                lemma_comes_irreflexive(keys, at);
            }
        }
    }
}

proof fn lemma_nothing_comes_before_itself(nodes: Seq<NodeView>, mode: SortMode, a: Seq<int>)
    ensures
        !comes_first(nodes, mode, a, a),
    decreases a.len(),
{
    if a.len() > 0 {
        lemma_nothing_comes_before_itself(nodes[a[0]].children, mode, a.skip(1));
    }
}

/// The displayed rows are exactly the nodes below the root that lie in expanded directories alone,
/// each once and in preorder; siblings come in the order of their ranks. The depth of a row is the
/// number of directories below the root that it lies in. Whether the root itself is expanded makes
/// no difference.
pub proof fn rows_are_the_open_nodes(tree: NodeView, mode: SortMode)
    ensures
        row_places(tree, mode).len() == rows(tree, mode).len(),
        row_places(tree, mode).no_duplicates(),
        forall|p: Seq<int>| #[trigger]
            row_places(tree, mode).contains(p) <==> shown_in(tree.children, p),
        forall|i: int|
            0 <= i < rows(tree, mode).len() ==> #[trigger] rows(tree, mode)[i] == (
                (row_places(tree, mode)[i].len() - 1) as nat,
                node_in(tree.children, row_places(tree, mode)[i]),
            ),
        forall|i: int, j: int|
            0 <= i < j < rows(tree, mode).len() ==> comes_first(
                tree.children,
                mode,
                #[trigger] row_places(tree, mode)[i],
                #[trigger] row_places(tree, mode)[j],
            ),
{
    let nodes = tree.children;
    let len = nodes.len() as int;
    let places = row_places(tree, mode);
    let o = sorting(node_ranks(nodes, mode));
    sorting_exists(node_ranks(nodes, mode));
    lemma_places_upto(nodes, 0, mode, len);
    assert(o.take(len) =~= o);
    assert forall|p: Seq<int>| #[trigger] places.contains(p) <==> shown_in(nodes, p) by {
        if shown_in(nodes, p) {
            assert(o.contains(p[0]));
        }
    }
    assert forall|i: int, j: int| 0 <= i < places.len() && 0 <= j < places.len() && i != j implies
        places[i] != places[j] by {
        lemma_nothing_comes_before_itself(nodes, mode, places[i]);
        if i < j {
            assert(comes_first(nodes, mode, places[i], places[j]));
        } else {
            assert(comes_first(nodes, mode, places[j], places[i]));
        }
    }
    assert forall|i: int| 0 <= i < rows(tree, mode).len() implies #[trigger] rows(tree, mode)[i]
        == ((places[i].len() - 1) as nat, node_in(nodes, places[i])) by {
        assert(shown_in(nodes, places[i]));
    }
}

} // verus!
