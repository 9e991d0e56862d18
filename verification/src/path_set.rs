//! Sets of paths that are listed in ascending order.
use vstd::prelude::*;

use crate::order::{lex, total_order};
use crate::path::{lemma_path_order, path_before, step_lt, FilePath, PathView, Step};

verus! {

/// A set of paths. A path that is put in a second time stays as it was first written.
#[derive(Debug)]
pub struct PathSet {
    paths: Vec<FilePath>,
}

/// Paths that ascend, so that each stands once.
pub open spec fn paths_ascend(paths: Seq<Seq<Step>>) -> bool {
    forall|i: int, j: int|
        0 <= i < j < paths.len() ==> path_before(#[trigger] paths[i], #[trigger] paths[j])
}

/// `s` lists the paths of a set in ascending order.
pub open spec fn is_listing(s: Seq<Seq<Step>>, set: Set<Seq<Step>>) -> bool {
    &&& paths_ascend(s)
    &&& forall|p: Seq<Step>| #[trigger] s.contains(p) <==> set.contains(p)
}

/// The paths of a set in ascending order.
pub open spec fn listing(set: Set<Seq<Step>>) -> Seq<Seq<Step>> {
    choose|s: Seq<Seq<Step>>| is_listing(s, set)
}

/// What a sequence of paths stands for.
pub open spec fn paths_view(paths: Seq<FilePath>) -> Seq<Seq<Step>> {
    paths.map_values(|p: FilePath| p@)
}

/// Paths with the way in which each is written.
pub open spec fn full_paths_view(paths: Seq<FilePath>) -> Seq<PathView> {
    paths.map_values(|p: FilePath| p.full())
}

/// The paths of some writings.
pub open spec fn steps_of(paths: Seq<PathView>) -> Seq<Seq<Step>> {
    paths.map_values(|p: PathView| p.steps)
}

/// The paths that are written down in `m`, in ascending order.
pub open spec fn listed(m: Map<Seq<Step>, Seq<u8>>) -> Seq<PathView> {
    listing(m.dom()).map_values(|p: Seq<Step>| PathView { steps: p, written: m[p] })
}

/// `m` with a path put in.
pub open spec fn with_path(m: Map<Seq<Step>, Seq<u8>>, p: PathView) -> Map<Seq<Step>, Seq<u8>> {
    if m.dom().contains(p.steps) {
        m
    } else {
        m.insert(p.steps, p.written)
    }
}

/// `m` with some paths put in, one after the other.
pub open spec fn with_paths(
    m: Map<Seq<Step>, Seq<u8>>,
    paths: Seq<PathView>,
) -> Map<Seq<Step>, Seq<u8>>
    decreases paths.len(),
{
    if paths.len() == 0 {
        m
    } else {
        with_path(with_paths(m, paths.drop_last()), paths.last())
    }
}

/// Putting paths in leaves the others where they are.
pub proof fn putting_in_adds(m: Map<Seq<Step>, Seq<u8>>, paths: Seq<PathView>)
    ensures
        with_paths(m, paths).dom() == m.dom().union(steps_of(paths).to_set()),
    decreases paths.len(),
{
    let after = with_paths(m, paths);
    let names = steps_of(paths);
    if paths.len() == 0 {
        assert(after.dom() =~= m.dom().union(names.to_set()));
    } else {
        let front = paths.drop_last();
        putting_in_adds(m, front);
        let some = steps_of(front);
        assert(names =~= some.push(paths.last().steps));
        assert forall|p: Seq<Step>| names.contains(p) <==> some.contains(p) || p
            == paths.last().steps by {
            if some.contains(p) {
                let i = choose|i: int| 0 <= i < some.len() && some[i] == p;
                assert(names[i] == p);
            }
            assert(names[some.len() as int] == paths.last().steps);
            if names.contains(p) {
                let i = choose|i: int| 0 <= i < names.len() && names[i] == p;
                if i < some.len() {
                    assert(some[i] == p);
                }
            }
        }
        assert(after.dom() =~= m.dom().union(names.to_set()));
    }
}

/// Paths that are put in after others are put in behind them.
pub proof fn lemma_with_more(
    m: Map<Seq<Step>, Seq<u8>>,
    some: Seq<PathView>,
    more: Seq<PathView>,
)
    ensures
        with_paths(m, some + more) == with_paths(with_paths(m, some), more),
    decreases more.len(),
{
    let all = some + more;
    if more.len() == 0 {
        assert(all =~= some);
    } else {
        lemma_with_more(m, some, more.drop_last());
        assert(all.drop_last() =~= some + more.drop_last());
    }
}

proof fn lemma_same_listing(a: Seq<Seq<Step>>, b: Seq<Seq<Step>>, set: Set<Seq<Step>>, k: int)
    requires
        is_listing(a, set),
        is_listing(b, set),
        0 <= k <= a.len(),
    ensures
        k <= b.len(),
        a.take(k) == b.take(k),
    decreases k,
{
    if k > 0 {
        lemma_path_order();
        let before = lex(step_lt());
        lemma_same_listing(a, b, set, k - 1);
        let x = a[k - 1];
        assert(a.contains(x));
        assert(b.contains(x));
        let q = choose|q: int| 0 <= q < b.len() && b[q] == x;
        if q < k - 1 {
            assert(b.take(k - 1)[q] == b[q]);
            assert(a.take(k - 1)[q] == a[q]);
            assert(before(a[q], a[k - 1]));
        }
        let y = b[k - 1];
        assert(b.contains(y));
        assert(a.contains(y));
        let p = choose|p: int| 0 <= p < a.len() && a[p] == y;
        if p < k - 1 {
            assert(a.take(k - 1)[p] == a[p]);
            assert(b.take(k - 1)[p] == b[p]);
            assert(before(b[p], b[k - 1]));
        }
        if q != k - 1 {
            assert(before(b[k - 1], b[q]));
            assert(p != k - 1);
            assert(before(a[k - 1], a[p]));
            assert(before(y, x) && before(x, y));
        }
        assert(a.take(k) =~= b.take(k));
    }
}

/// There is only one ascending list of a set.
pub proof fn listing_is_unique(s: Seq<Seq<Step>>, set: Set<Seq<Step>>)
    requires
        is_listing(s, set),
    ensures
        listing(set) == s,
{
    let l = listing(set);
    lemma_same_listing(s, l, set, s.len() as int);
    lemma_same_listing(l, s, set, l.len() as int);
    assert(s.take(s.len() as int) =~= s);
    assert(l.take(l.len() as int) =~= l);
}

/// Every finite set of paths can be listed.
pub proof fn listing_exists(set: Set<Seq<Step>>)
    requires
        set.finite(),
    ensures
        is_listing(listing(set), set),
    decreases set.len(),
{
    if set.len() == 0 {
        assert(set =~= Set::empty());
        assert(is_listing(seq![], set));
    } else {
        let before = lex(step_lt());
        let at_most = |a: Seq<Step>, b: Seq<Step>| a == b || before(a, b);
        lemma_path_order();
        assert(vstd::relations::total_ordering(at_most)) by {
            assert forall|a: Seq<Step>, b: Seq<Step>| #[trigger] at_most(a, b) || #[trigger] at_most(
                b,
                a,
            ) by {
                assert(a == b || before(a, b) || before(b, a));
            }
        }
        set.find_unique_maximal_ensures(at_most);
        let last = set.find_unique_maximal(at_most);
        let rest = set.remove(last);
        listing_exists(rest);
        let front = listing(rest);
        let all = front.push(last);
        assert forall|i: int, j: int| 0 <= i < j < all.len() implies path_before(
            #[trigger] all[i],
            #[trigger] all[j],
        ) by {
            if j < front.len() {
                assert(path_before(front[i], front[j]));
            } else {
                assert(front.contains(front[i]));
                assert(rest.contains(front[i]));
                assert(set.contains(front[i]) && front[i] != last);
                assert(vstd::relations::is_maximal(at_most, last, set));
                assert(at_most(front[i], last)) by {
                    if !at_most(front[i], last) {
                        assert(before(last, front[i]));
                        assert(at_most(last, front[i]));
                    }
                }
                assert(before(front[i], last));
            }
        }
        assert forall|p: Seq<Step>| #[trigger] all.contains(p) <==> set.contains(p) by {
            if all.contains(p) {
                let k = choose|k: int| 0 <= k < all.len() && all[k] == p;
                if k < front.len() {
                    assert(front[k] == p);
                    assert(front.contains(p));
                }
            }
            if set.contains(p) {
                if p == last {
                    assert(all[front.len() as int] == p);
                } else {
                    assert(front.contains(p));
                    let k = choose|k: int| 0 <= k < front.len() && front[k] == p;
                    assert(all[k] == p);
                }
            }
        }
        assert(is_listing(all, set));
    }
}

/// A set is viewed as its paths, each with the way in which it is written.
impl View for PathSet {
    type V = Map<Seq<Step>, Seq<u8>>;

    closed spec fn view(&self) -> Map<Seq<Step>, Seq<u8>> {
        let paths = paths_view(self.paths@);
        Map::new(
            |p: Seq<Step>| paths.contains(p),
            |p: Seq<Step>| self.paths@[paths.index_of(p)].written@,
        )
    }
}

/// Paths that ascend stand at one place each.
proof fn lemma_one_place(paths: Seq<Seq<Step>>, i: int)
    requires
        paths_ascend(paths),
        0 <= i < paths.len(),
    ensures
        paths.contains(paths[i]),
        paths.index_of(paths[i]) == i,
{
    lemma_path_order();
    let before = lex(step_lt());
    let k = paths.index_of(paths[i]);
    assert(paths[k] == paths[i]);
    if k < i {
        assert(before(paths[k], paths[i]));
    } else if i < k {
        assert(before(paths[i], paths[k]));
    }
}

impl PathSet {
    /// The paths are held in ascending order.
    pub closed spec fn wf(&self) -> bool {
        paths_ascend(paths_view(self.paths@))
    }

    /// The ascending list of a set holds its paths, each once.
    pub proof fn lists_its_paths(&self)
        requires
            self.wf(),
        ensures
            is_listing(listing(self@.dom()), self@.dom()),
    {
        assert(is_listing(paths_view(self.paths@), self@.dom()));
    }

    /// The empty set.
    pub fn new() -> (r: PathSet)
        ensures
            r.wf(),
            r@ == Map::<Seq<Step>, Seq<u8>>::empty(),
    {
        let r = PathSet { paths: Vec::new() };
        assert(r@ =~= Map::<Seq<Step>, Seq<u8>>::empty());
        r
    }

    /// How many paths there are.
    pub fn len(&self) -> (r: usize)
        requires
            self.wf(),
        ensures
            r == self@.dom().len(),
            r == listing(self@.dom()).len(),
            self@.dom().finite(),
    {
        proof {
            let s = paths_view(self.paths@);
            assert(is_listing(s, self@.dom()));
            listing_is_unique(s, self@.dom());
            lemma_path_order();
            let before = lex(step_lt());
            assert forall|i: int, j: int| 0 <= i < s.len() && 0 <= j < s.len() && i != j implies s[i]
                != s[j] by {
                if i < j {
                    assert(before(s[i], s[j]));
                } else {
                    assert(before(s[j], s[i]));
                }
            }
            assert(s.no_duplicates());
            s.unique_seq_to_set();
            assert(self@.dom() =~= s.to_set());
        }
        self.paths.len()
    }

    /// Whether there is no path.
    pub fn is_empty(&self) -> (r: bool)
        requires
            self.wf(),
        ensures
            r == (self@.dom() == Set::<Seq<Step>>::empty()),
    {
        if self.paths.len() == 0 {
            assert(self@.dom() =~= Set::<Seq<Step>>::empty());
            true
        } else {
            assert(paths_view(self.paths@).contains(self.paths@[0]@)) by {
                assert(paths_view(self.paths@)[0] == self.paths@[0]@);
            }
            assert(self@.dom().contains(self.paths@[0]@));
            false
        }
    }

    /// The paths in ascending order.
    pub fn list(&self) -> (r: &Vec<FilePath>)
        requires
            self.wf(),
        ensures
            full_paths_view(r@) == listed(self@),
            paths_view(r@) == listing(self@.dom()),
    {
        proof {
            let s = paths_view(self.paths@);
            let full = full_paths_view(self.paths@);
            listing_is_unique(s, self@.dom());
            assert forall|i: int| 0 <= i < full.len() implies #[trigger] full[i] == listed(
                self@,
            )[i] by {
                lemma_one_place(s, i);
                assert(s[i] == self.paths@[i]@);
            }
            assert(full =~= listed(self@));
        }
        &self.paths
    }

    fn slot(&self, path: &FilePath) -> (r: usize)
        requires
            self.wf(),
        ensures
            r <= self.paths@.len(),
            forall|j: int| 0 <= j < r ==> path_before((#[trigger] self.paths@[j])@, path@),
            forall|j: int|
                r <= j < self.paths@.len() ==> !path_before((#[trigger] self.paths@[j])@, path@),
    {
        let mut lo: usize = 0;
        let mut hi: usize = self.paths.len();
        proof {
            lemma_path_order();
        }
        while lo < hi
            invariant
                self.wf(),
                lo <= hi <= self.paths@.len(),
                forall|j: int| 0 <= j < lo ==> path_before((#[trigger] self.paths@[j])@, path@),
                forall|j: int|
                    hi <= j < self.paths@.len() ==> !path_before(
                        (#[trigger] self.paths@[j])@,
                        path@,
                    ),
                total_order(lex(step_lt())),
            decreases hi - lo,
        {
            let mid: usize = lo + (hi - lo) / 2;
            let ghost before = lex(step_lt());
            let ghost s = paths_view(self.paths@);
            assert(s[mid as int] == self.paths@[mid as int]@);
            if self.paths[mid].is_before(path) {
                assert forall|j: int| 0 <= j < mid + 1 implies path_before(
                    (#[trigger] self.paths@[j])@,
                    path@,
                ) by {
                    if j < mid {
                        assert(path_before(s[j], s[mid as int]));
                        assert(before(s[j], s[mid as int]));
                        assert(before(s[mid as int], path@));
                    }
                }
                lo = mid + 1;
            } else {
                assert forall|j: int| mid <= j < self.paths@.len() implies !path_before(
                    (#[trigger] self.paths@[j])@,
                    path@,
                ) by {
                    if j > mid && path_before(s[j], path@) {
                        assert(path_before(s[mid as int], s[j]));
                        assert(before(s[mid as int], s[j]));
                        assert(before(s[j], path@));
                        assert(before(s[mid as int], path@));
                    }
                }
                hi = mid;
            }
        }
        lo
    }

    /// Whether a path is in the set.
    pub fn contains(&self, path: &FilePath) -> (r: bool)
        requires
            self.wf(),
        ensures
            r == self@.dom().contains(path@),
    {
        let at: usize = self.slot(path);
        let found: bool = at < self.paths.len() && self.paths[at].equals(path);
        proof {
            let s = paths_view(self.paths@);
            if found {
                assert(s[at as int] == path@);
            } else if s.contains(path@) {
                lemma_path_order();
                let before = lex(step_lt());
                let q = choose|q: int| 0 <= q < s.len() && s[q] == path@;
                assert(self.paths@[q]@ == path@);
                if q < at {
                    assert(before(path@, path@));
                } else if q > at {
                    assert(path_before(s[at as int], s[q]));
                    assert(!path_before(self.paths@[at as int]@, path@));
                }
            }
        }
        found
    }

    /// Puts a path into the set. Says whether it was not in it.
    pub fn insert(&mut self, path: FilePath) -> (r: bool)
        requires
            old(self).wf(),
        ensures
            final(self).wf(),
            final(self)@ == with_path(old(self)@, path.full()),
            r == !old(self)@.dom().contains(path@),
    {
        if self.contains(&path) {
            return false;
        }
        let at: usize = self.slot(&path);
        let ghost s = paths_view(self.paths@);
        let ghost p = path@;
        let ghost written = path.written@;
        self.paths.insert(at, path);
        proof {
            let t = paths_view(self.paths@);
            let before = lex(step_lt());
            lemma_path_order();
            assert(t =~= s.insert(at as int, p));
            assert(!s.contains(p));
            assert forall|i: int, j: int| 0 <= i < j < t.len() implies path_before(
                #[trigger] t[i],
                #[trigger] t[j],
            ) by {
                let i0 = if i < at {
                    i
                } else {
                    i - 1
                };
                let j0 = if j < at {
                    j
                } else {
                    j - 1
                };
                if i != at && j != at {
                    assert(path_before(s[i0], s[j0]));
                } else if i == at {
                    assert(t[j] == s[j0]);
                    assert(!before(s[j0], p)) by {
                        assert(old(self).paths@[j0]@ == s[j0]);
                    }
                    assert(s[j0] != p);
                    assert(before(p, s[j0]));
                } else {
                    assert(t[i] == s[i0]);
                    assert(old(self).paths@[i0]@ == s[i0]);
                }
            }
            assert(paths_ascend(t));
            assert(self@.dom() =~= old(self)@.dom().insert(p)) by {
                assert forall|x: Seq<Step>| t.contains(x) <==> (s.contains(x) || x == p) by {
                    if s.contains(x) {
                        let r = choose|r: int| 0 <= r < s.len() && s[r] == x;
                        assert(t[if r < at { r } else { r + 1 }] == x);
                    }
                    assert(t[at as int] == p);
                    if t.contains(x) && x != p {
                        let r = choose|r: int| 0 <= r < t.len() && t[r] == x;
                        assert(s[if r < at { r } else { r - 1 }] == x);
                    }
                }
            }
            assert forall|x: Seq<Step>| #[trigger] self@.dom().contains(x) implies self@[x]
                == old(self)@.insert(p, written)[x] by {
                if x == p {
                    lemma_one_place(t, at as int);
                } else {
                    let r = choose|r: int| 0 <= r < s.len() && s[r] == x;
                    lemma_one_place(s, r);
                    lemma_one_place(t, if r < at { r } else { r + 1 });
                }
            }
            assert(self@ =~= old(self)@.insert(p, written));
        }
        true
    }

    /// Takes a path out of the set. Says whether it was in it.
    pub fn remove(&mut self, path: &FilePath) -> (r: bool)
        requires
            old(self).wf(),
        ensures
            final(self).wf(),
            final(self)@ == old(self)@.remove(path@),
            r == old(self)@.dom().contains(path@),
    {
        if !self.contains(path) {
            assert(self@ =~= old(self)@.remove(path@));
            return false;
        }
        let at: usize = self.slot(path);
        let ghost s = paths_view(self.paths@);
        proof {
            lemma_path_order();
            let before = lex(step_lt());
            let q = choose|q: int| 0 <= q < s.len() && s[q] == path@;
            assert(self.paths@[q]@ == path@);
            if q < at {
                assert(before(path@, path@));
            } else if q > at {
                assert(path_before(s[at as int], s[q]));
                assert(!path_before(self.paths@[at as int]@, path@));
            }
            assert(s[at as int] == path@);
        }
        self.paths.remove(at);
        proof {
            let t = paths_view(self.paths@);
            let p = path@;
            let before = lex(step_lt());
            assert(t =~= s.remove(at as int));
            assert forall|i: int, j: int| 0 <= i < j < t.len() implies path_before(
                #[trigger] t[i],
                #[trigger] t[j],
            ) by {
                assert(path_before(
                    s[if i < at { i } else { i + 1 }],
                    s[if j < at { j } else { j + 1 }],
                ));
            }
            assert(paths_ascend(t));
            assert(self@.dom() =~= old(self)@.dom().remove(p)) by {
                assert forall|x: Seq<Step>| t.contains(x) <==> (s.contains(x) && x != p) by {
                    if s.contains(x) && x != p {
                        let r = choose|r: int| 0 <= r < s.len() && s[r] == x;
                        assert(t[if r < at { r } else { r - 1 }] == x);
                    }
                    if t.contains(x) {
                        let r = choose|r: int| 0 <= r < t.len() && t[r] == x;
                        let r0 = if r < at {
                            r
                        } else {
                            r + 1
                        };
                        assert(s[r0] == x);
                        if r0 < at {
                            assert(before(s[r0], s[at as int]));
                        } else {
                            assert(before(s[at as int], s[r0]));
                        }
                    }
                }
            }
            assert forall|x: Seq<Step>| #[trigger] self@.dom().contains(x) implies self@[x]
                == old(self)@.remove(p)[x] by {
                let r = choose|r: int| 0 <= r < t.len() && t[r] == x;
                lemma_one_place(t, r);
                lemma_one_place(s, if r < at { r } else { r + 1 });
            }
            assert(self@ =~= old(self)@.remove(p));
        }
        true
    }

    /// Takes a path out of the set where it is in it, and else puts it in.
    pub fn flip(&mut self, path: FilePath)
        requires
            old(self).wf(),
        ensures
            final(self).wf(),
            final(self)@ == flipped(old(self)@, path.full()),
    {
        if !self.remove(&path) {
            assert(self@ =~= old(self)@);
            self.insert(path);
        }
    }
}

/// The paths with one taken out where it was among them, and else put in.
pub open spec fn flipped(m: Map<Seq<Step>, Seq<u8>>, p: PathView) -> Map<Seq<Step>, Seq<u8>> {
    if m.dom().contains(p.steps) {
        m.remove(p.steps)
    } else {
        m.insert(p.steps, p.written)
    }
}

/// Flipping a path twice restores the set, whichever way the path is written.
pub proof fn flipping_twice_restores(m: Map<Seq<Step>, Seq<u8>>, p: PathView, q: PathView)
    requires
        p.steps == q.steps,
    ensures
        flipped(flipped(m, p), q).dom() == m.dom(),
{
    assert(flipped(flipped(m, p), q).dom() =~= m.dom());
}

} // verus!
