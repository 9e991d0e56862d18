//! Strict orders, the lexicographic order on sequences, and stable sorting.
use vstd::prelude::*;

use crate::path::{lemma_path_order, path_before, step_lt, FilePath, Step};
use crate::text::{char_lt, lemma_text_order, text_before, text_is_before};

verus! {

/// `lt` is a strict total order.
pub open spec fn total_order<T>(lt: spec_fn(T, T) -> bool) -> bool {
    &&& forall|a: T, b: T| #[trigger] lt(a, b) ==> !lt(b, a)
    &&& forall|a: T, b: T, c: T| #[trigger] lt(a, b) && #[trigger] lt(b, c) ==> lt(a, c)
    &&& forall|a: T, b: T| a == b || #[trigger] lt(a, b) || lt(b, a)
}

/// `a` and `b` agree on their first `k` elements, and `a` ends there or goes on with a lesser
/// element than `b` does.
pub open spec fn departs_below<T>(a: Seq<T>, b: Seq<T>, k: int, lt: spec_fn(T, T) -> bool) -> bool {
    &&& 0 <= k <= a.len()
    &&& k < b.len()
    &&& forall|j: int| 0 <= j < k ==> a[j] == b[j]
    &&& k == a.len() || lt(a[k], b[k])
}

/// The lexicographic order on sequences whose elements are ordered by `lt`.
pub open spec fn lex_before<T>(a: Seq<T>, b: Seq<T>, lt: spec_fn(T, T) -> bool) -> bool {
    exists|k: int| #[trigger] departs_below(a, b, k, lt)
}

/// The lexicographic order as a relation, for a given order of the elements.
pub open spec fn lex<T>(lt: spec_fn(T, T) -> bool) -> spec_fn(Seq<T>, Seq<T>) -> bool {
    |a: Seq<T>, b: Seq<T>| lex_before(a, b, lt)
}

proof fn lemma_lex_asymmetric<T>(a: Seq<T>, b: Seq<T>, lt: spec_fn(T, T) -> bool)
    requires
        total_order(lt),
        lex_before(a, b, lt),
    ensures
        !lex_before(b, a, lt),
{
    let k = choose|k: int| departs_below(a, b, k, lt);
    assert forall|m: int| !#[trigger] departs_below(b, a, m, lt) by {
        if departs_below(b, a, m, lt) {
            if k < m {
                assert(b[k] == a[k]);
                assert(lt(a[k], b[k]));
            } else if m < k {
                assert(a[m] == b[m]);
                assert(lt(b[m], a[m]));
            } else {
                assert(lt(a[k], b[k]));
                assert(lt(b[k], a[k]));
            }
        }
    }
}

proof fn lemma_lex_transitive<T>(a: Seq<T>, b: Seq<T>, c: Seq<T>, lt: spec_fn(T, T) -> bool)
    requires
        total_order(lt),
        lex_before(a, b, lt),
        lex_before(b, c, lt),
    ensures
        lex_before(a, c, lt),
{
    let k = choose|k: int| departs_below(a, b, k, lt);
    let m = choose|m: int| departs_below(b, c, m, lt);
    if k <= m {
        assert forall|j: int| 0 <= j < k implies a[j] == c[j] by {
            assert(a[j] == b[j] && b[j] == c[j]);
        }
        assert(departs_below(a, c, k, lt));
    } else {
        assert forall|j: int| 0 <= j < m implies a[j] == c[j] by {
            assert(a[j] == b[j] && b[j] == c[j]);
        }
        assert(a[m] == b[m]);
        assert(departs_below(a, c, m, lt));
    }
}

/// Two sequences that agree up to `k` are equal, or one departs below the other.
proof fn lemma_lex_connected<T>(a: Seq<T>, b: Seq<T>, k: int, lt: spec_fn(T, T) -> bool)
    requires
        total_order(lt),
        0 <= k <= a.len(),
        k <= b.len(),
        forall|j: int| 0 <= j < k ==> a[j] == b[j],
    ensures
        a == b || lex_before(a, b, lt) || lex_before(b, a, lt),
    decreases a.len() - k,
{
    if k == a.len() {
        if k == b.len() {
            assert(a =~= b);
        } else {
            assert(departs_below(a, b, k, lt));
        }
    } else if k == b.len() {
        assert(departs_below(b, a, k, lt));
    } else if a[k] == b[k] {
        lemma_lex_connected(a, b, k + 1, lt);
    } else if lt(a[k], b[k]) {
        assert(departs_below(a, b, k, lt));
    } else {
        assert(departs_below(b, a, k, lt));
    }
}

/// The lexicographic order over a total order is a total order.
pub proof fn lemma_lex_total<T>(lt: spec_fn(T, T) -> bool)
    requires
        total_order(lt),
    ensures
        total_order(lex(lt)),
{
    let r = lex(lt);
    assert forall|a: Seq<T>, b: Seq<T>| #[trigger] r(a, b) implies !r(b, a) by {
        lemma_lex_asymmetric(a, b, lt);
    }
    assert forall|a: Seq<T>, b: Seq<T>, c: Seq<T>| #[trigger] r(a, b) && #[trigger] r(b, c)
        implies r(a, c) by {
        lemma_lex_transitive(a, b, c, lt);
    }
    assert forall|a: Seq<T>, b: Seq<T>| a == b || #[trigger] r(a, b) || r(b, a) by {
        lemma_lex_connected(a, b, 0, lt);
    }
}

// ---------------------------------------------------------------------------
// Sort keys
// ---------------------------------------------------------------------------

/// What things are sorted by.
pub enum Key<'a> {
    /// Texts in ascending order.
    Text(&'a String),
    /// Paths in ascending order.
    Path(&'a FilePath),
    /// Numbers, the largest first.
    Large(u64),
    /// Points in time, the latest first, and those that are unknown last.
    Late(Option<i128>),
    /// Pairs of numbers in ascending order.
    Pair(u64, u64),
}

/// What a sort key stands for.
pub enum Rank {
    Text(Seq<char>),
    Path(Seq<Step>),
    Large(int),
    Late(Option<int>),
    Pair(int, int),
}

impl<'a> View for Key<'a> {
    type V = Rank;

    open spec fn view(&self) -> Rank {
        match self {
            Key::Text(t) => Rank::Text(t@),
            Key::Path(p) => Rank::Path(p@),
            Key::Large(n) => Rank::Large(*n as int),
            Key::Late(Some(t)) => Rank::Late(Some(*t as int)),
            Key::Late(None) => Rank::Late(None),
            Key::Pair(a, b) => Rank::Pair(*a as int, *b as int),
        }
    }
}

/// The kinds of ranks in their order.
pub open spec fn rank_kind(r: Rank) -> int {
    match r {
        Rank::Text(_) => 0,
        Rank::Path(_) => 1,
        Rank::Large(_) => 2,
        Rank::Late(_) => 3,
        Rank::Pair(_, _) => 4,
    }
}

/// `a` is sorted before `b`.
pub open spec fn rank_before(a: Rank, b: Rank) -> bool {
    match (a, b) {
        (Rank::Text(x), Rank::Text(y)) => text_before(x, y),
        (Rank::Path(x), Rank::Path(y)) => path_before(x, y),
        (Rank::Large(x), Rank::Large(y)) => x > y,
        (Rank::Late(Some(x)), Rank::Late(Some(y))) => x > y,
        (Rank::Late(x), Rank::Late(y)) => x is Some && y is None,
        (Rank::Pair(w, x), Rank::Pair(y, z)) => w < y || (w == y && x < z),
        _ => rank_kind(a) < rank_kind(b),
    }
}

/// The order of ranks as a relation.
pub open spec fn rank_lt() -> spec_fn(Rank, Rank) -> bool {
    |a: Rank, b: Rank| rank_before(a, b)
}

/// Ranks are totally ordered.
pub proof fn lemma_rank_order()
    ensures
        total_order(rank_lt()),
{
    let lt = rank_lt();
    let texts = lex(char_lt());
    let paths = lex(step_lt());
    lemma_text_order();
    lemma_path_order();
    assert forall|a: Rank, b: Rank| #[trigger] lt(a, b) implies !lt(b, a) by {
        match (a, b) {
            (Rank::Text(x), Rank::Text(y)) => {
                assert(texts(x, y));
            },
            (Rank::Path(x), Rank::Path(y)) => {
                assert(paths(x, y));
            },
            _ => {},
        }
    }
    assert forall|a: Rank, b: Rank, c: Rank| #[trigger] lt(a, b) && #[trigger] lt(b, c) implies lt(
        a,
        c,
    ) by {
        match (a, b, c) {
            (Rank::Text(x), Rank::Text(y), Rank::Text(z)) => {
                assert(texts(x, y) && texts(y, z));
                assert(texts(x, z));
            },
            (Rank::Path(x), Rank::Path(y), Rank::Path(z)) => {
                assert(paths(x, y) && paths(y, z));
                assert(paths(x, z));
            },
            _ => {},
        }
    }
    assert forall|a: Rank, b: Rank| a == b || #[trigger] lt(a, b) || lt(b, a) by {
        match (a, b) {
            (Rank::Text(x), Rank::Text(y)) => {
                assert(x == y || texts(x, y) || texts(y, x));
            },
            (Rank::Path(x), Rank::Path(y)) => {
                assert(x == y || paths(x, y) || paths(y, x));
            },
            _ => {},
        }
    }
}

impl<'a> Key<'a> {
    /// Whether this key is sorted before another.
    pub fn is_before(&self, other: &Key<'a>) -> (r: bool)
        ensures
            r == rank_before(self@, other@),
    {
        match (self, other) {
            (Key::Text(x), Key::Text(y)) => text_is_before(x.as_str(), y.as_str()),
            (Key::Path(x), Key::Path(y)) => x.is_before(y),
            (Key::Large(x), Key::Large(y)) => *x > *y,
            (Key::Late(Some(x)), Key::Late(Some(y))) => *x > *y,
            (Key::Late(x), Key::Late(y)) => x.is_some() && y.is_none(),
            (Key::Pair(w, x), Key::Pair(y, z)) => *w < *y || (*w == *y && *x < *z),
            _ => self.kind() < other.kind(),
        }
    }

    fn kind(&self) -> (r: u8)
        ensures
            r == rank_kind(self@),
    {
        match self {
            Key::Text(_) => 0,
            Key::Path(_) => 1,
            Key::Large(_) => 2,
            Key::Late(_) => 3,
            Key::Pair(_, _) => 4,
        }
    }
}

/// The ranks of a sequence of keys.
pub open spec fn ranks<'a>(keys: Seq<Key<'a>>) -> Seq<Rank> {
    keys.map_values(|k: Key<'a>| k@)
}

// ---------------------------------------------------------------------------
// Stable sorting
// ---------------------------------------------------------------------------

/// In the sorted sequence, what stood at `i` stands before what stood at `j`: its rank is before
/// the other's, or the ranks are equal and `i` was first.
pub open spec fn comes(keys: Seq<Rank>, i: int, j: int) -> bool {
    rank_before(keys[i], keys[j]) || (keys[i] == keys[j] && i < j)
}

/// `o` lists the positions `lo..hi`, each once, in the order of their ranks, equal ranks in the
/// order in which they stood.
pub open spec fn arranged(keys: Seq<Rank>, lo: int, hi: int, o: Seq<int>) -> bool {
    &&& o.len() == hi - lo
    &&& forall|r: int| 0 <= r < o.len() ==> lo <= #[trigger] o[r] < hi
    &&& forall|r: int, s: int| 0 <= r < s < o.len() ==> comes(keys, #[trigger] o[r], #[trigger] o[s])
    &&& forall|v: int| lo <= v < hi ==> #[trigger] o.contains(v)
}

/// `o` is the stable sorting of all positions.
pub open spec fn in_order(keys: Seq<Rank>, o: Seq<int>) -> bool {
    arranged(keys, 0, keys.len() as int, o)
}

/// The stable sorting: which position each thing of the sorted sequence stood at.
pub open spec fn sorting(keys: Seq<Rank>) -> Seq<int> {
    choose|o: Seq<int>| in_order(keys, o)
}

/// Positions as integers.
pub open spec fn positions(o: Seq<usize>) -> Seq<int> {
    o.map_values(|i: usize| i as int)
}

proof fn lemma_comes_order(keys: Seq<Rank>)
    ensures
        forall|i: int, j: int| #[trigger] comes(keys, i, j) ==> !comes(keys, j, i),
        forall|i: int, j: int, k: int| #[trigger]
            comes(keys, i, j) && #[trigger] comes(keys, j, k) ==> comes(keys, i, k),
        forall|i: int, j: int| i == j || #[trigger] comes(keys, i, j) || comes(keys, j, i),
{
    lemma_rank_order();
    let lt = rank_lt();
    assert forall|i: int, j: int| #[trigger] comes(keys, i, j) implies !comes(keys, j, i) by {
        assert(lt(keys[i], keys[j]) ==> !lt(keys[j], keys[i]));
        assert(lt(keys[j], keys[i]) ==> !lt(keys[i], keys[j]));
    }
    assert forall|i: int, j: int, k: int| #[trigger]
        comes(keys, i, j) && #[trigger] comes(keys, j, k) implies comes(keys, i, k) by {
        assert(lt(keys[i], keys[j]) && lt(keys[j], keys[k]) ==> lt(keys[i], keys[k]));
    }
    assert forall|i: int, j: int| i == j || #[trigger] comes(keys, i, j) || comes(keys, j, i) by {
        assert(keys[i] == keys[j] || lt(keys[i], keys[j]) || lt(keys[j], keys[i]));
    }
}

proof fn lemma_same_up_to(keys: Seq<Rank>, a: Seq<int>, b: Seq<int>, k: int)
    requires
        in_order(keys, a),
        in_order(keys, b),
        0 <= k <= keys.len(),
    ensures
        forall|r: int| 0 <= r < k ==> a[r] == b[r],
    decreases k,
{
    if k > 0 {
        lemma_same_up_to(keys, a, b, k - 1);
        lemma_comes_order(keys);
        let r = k - 1;
        if a[r] != b[r] {
            assert(b.contains(a[r]));
            assert(a.contains(b[r]));
            let p = choose|p: int| 0 <= p < b.len() && b[p] == a[r];
            let q = choose|q: int| 0 <= q < a.len() && a[q] == b[r];
            if p < r {
                assert(a[p] == a[r]);
                assert(comes(keys, a[p], a[r]));
            } else if q < r {
                assert(b[q] == b[r]);
                assert(comes(keys, b[q], b[r]));
            } else {
                assert(comes(keys, b[r], b[p]));
                assert(comes(keys, a[r], a[q]));
            }
            assert(false);
        }
    }
}

/// There is only one stable sorting.
pub proof fn sorting_is_unique(keys: Seq<Rank>, o: Seq<int>)
    requires
        in_order(keys, o),
    ensures
        sorting(keys) == o,
{
    lemma_same_up_to(keys, sorting(keys), o, keys.len() as int);
    assert(sorting(keys) =~= o);
}

/// A sorted list of positions, all of which come before `x`.
spec fn all_come(keys: Seq<Rank>, a: Seq<usize>, from: int, x: int) -> bool {
    forall|r: int| from <= r < a.len() ==> comes(keys, x, #[trigger] a[r] as int)
}

spec fn ascending(keys: Seq<Rank>, a: Seq<usize>) -> bool {
    forall|r: int, s: int|
        0 <= r < s < a.len() ==> comes(keys, #[trigger] a[r] as int, #[trigger] a[s] as int)
}

fn merge<'a>(keys: &Vec<Key<'a>>, a: &Vec<usize>, b: &Vec<usize>) -> (out: Vec<usize>)
    requires
        a@.len() + b@.len() <= keys@.len(),
        forall|r: int| 0 <= r < a@.len() ==> #[trigger] a@[r] < keys@.len(),
        forall|r: int| 0 <= r < b@.len() ==> #[trigger] b@[r] < keys@.len(),
        forall|r: int, s: int|
            0 <= r < a@.len() && 0 <= s < b@.len() ==> #[trigger] a@[r] < #[trigger] b@[s],
        ascending(ranks(keys@), a@),
        ascending(ranks(keys@), b@),
    ensures
        out@.len() == a@.len() + b@.len(),
        ascending(ranks(keys@), out@),
        forall|r: int| 0 <= r < out@.len() ==> a@.contains(#[trigger] out@[r]) || b@.contains(out@[r]),
        forall|r: int| 0 <= r < a@.len() ==> out@.contains(#[trigger] a@[r]),
        forall|r: int| 0 <= r < b@.len() ==> out@.contains(#[trigger] b@[r]),
{
    let ghost ks = ranks(keys@);
    proof {
        lemma_comes_order(ks);
        lemma_rank_order();
    }
    let mut out: Vec<usize> = Vec::new();
    let mut i: usize = 0;
    let mut j: usize = 0;
    while i < a.len() || j < b.len()
        invariant
            ks == ranks(keys@),
            a@.len() + b@.len() <= keys@.len(),
            forall|r: int| 0 <= r < a@.len() ==> #[trigger] a@[r] < keys@.len(),
            forall|r: int| 0 <= r < b@.len() ==> #[trigger] b@[r] < keys@.len(),
            forall|r: int, s: int|
                0 <= r < a@.len() && 0 <= s < b@.len() ==> #[trigger] a@[r] < #[trigger] b@[s],
            ascending(ks, a@),
            ascending(ks, b@),
            i <= a@.len(),
            j <= b@.len(),
            out@.len() == i + j,
            ascending(ks, out@),
            forall|r: int|
                0 <= r < out@.len() ==> all_come(ks, a@, i as int, #[trigger] out@[r] as int),
            forall|r: int|
                0 <= r < out@.len() ==> all_come(ks, b@, j as int, #[trigger] out@[r] as int),
            forall|r: int|
                0 <= r < out@.len() ==> a@.contains(#[trigger] out@[r]) || b@.contains(out@[r]),
            forall|r: int| 0 <= r < i ==> out@.contains(#[trigger] a@[r]),
            forall|r: int| 0 <= r < j ==> out@.contains(#[trigger] b@[r]),
            forall|x: int, y: int| #[trigger] comes(ks, x, y) ==> !comes(ks, y, x),
            forall|x: int, y: int, z: int| #[trigger]
                comes(ks, x, y) && #[trigger] comes(ks, y, z) ==> comes(ks, x, z),
            forall|x: int, y: int| x == y || #[trigger] comes(ks, x, y) || comes(ks, y, x),
        decreases a@.len() + b@.len() - i - j,
    {
        let ghost before = out@;
        let from_b: bool = j < b.len() && (i == a.len() || keys[b[j]].is_before(&keys[a[i]]));
        if from_b {
            let x: usize = b[j];
            proof {
                if i < a@.len() {
                    assert(ks[x as int] == keys@[x as int]@);
                    assert(ks[a@[i as int] as int] == keys@[a@[i as int] as int]@);
                    assert(comes(ks, x as int, a@[i as int] as int));
                }
                assert forall|r: int| i <= r < a@.len() implies comes(
                    ks,
                    x as int,
                    #[trigger] a@[r] as int,
                ) by {
                    if r > i {
                        assert(comes(ks, a@[i as int] as int, a@[r] as int));
                    }
                }
                assert(all_come(ks, b@, j + 1, x as int));
            }
            out.push(x);
            j += 1;
        } else {
            let x: usize = a[i];
            proof {
                if j < b@.len() {
                    assert(ks[x as int] == keys@[x as int]@);
                    assert(ks[b@[j as int] as int] == keys@[b@[j as int] as int]@);
                    assert(x < b@[j as int]);
                    assert(!rank_before(ks[b@[j as int] as int], ks[x as int]));
                    assert(!comes(ks, b@[j as int] as int, x as int));
                    assert(comes(ks, x as int, b@[j as int] as int));
                }
                assert forall|r: int| j <= r < b@.len() implies comes(
                    ks,
                    x as int,
                    #[trigger] b@[r] as int,
                ) by {
                    if r > j {
                        assert(comes(ks, b@[j as int] as int, b@[r] as int));
                    }
                }
                assert(all_come(ks, a@, i + 1, x as int));
            }
            out.push(x);
            i += 1;
        }
        proof {
            assert(out@[before.len() as int] == out@.last());
            assert forall|v: usize| before.contains(v) implies #[trigger] out@.contains(v) by {
                let r = choose|r: int| 0 <= r < before.len() && before[r] == v;
                assert(out@[r] == v);
            }
        }
    }
    out
}

fn sort_range<'a>(keys: &Vec<Key<'a>>, lo: usize, hi: usize) -> (out: Vec<usize>)
    requires
        lo <= hi <= keys@.len(),
    ensures
        arranged(ranks(keys@), lo as int, hi as int, positions(out@)),
    decreases hi - lo,
{
    let mut out: Vec<usize> = Vec::new();
    if hi - lo == 0 {
        return out;
    }
    if hi - lo == 1 {
        out.push(lo);
        assert(positions(out@)[0] == lo);
        return out;
    }
    let mid: usize = lo + (hi - lo) / 2;
    let a = sort_range(keys, lo, mid);
    let b = sort_range(keys, mid, hi);
    let ghost ks = ranks(keys@);
    proof {
        assert forall|r: int| 0 <= r < a@.len() implies lo <= #[trigger] a@[r] < mid by {
            assert(positions(a@)[r] == a@[r]);
        }
        assert forall|r: int| 0 <= r < b@.len() implies mid <= #[trigger] b@[r] < hi by {
            assert(positions(b@)[r] == b@[r]);
        }
        assert forall|r: int, s: int| 0 <= r < s < a@.len() implies comes(
            ks,
            #[trigger] a@[r] as int,
            #[trigger] a@[s] as int,
        ) by {
            assert(comes(ks, positions(a@)[r], positions(a@)[s]));
        }
        assert forall|r: int, s: int| 0 <= r < s < b@.len() implies comes(
            ks,
            #[trigger] b@[r] as int,
            #[trigger] b@[s] as int,
        ) by {
            assert(comes(ks, positions(b@)[r], positions(b@)[s]));
        }
    }
    out = merge(keys, &a, &b);
    proof {
        let o = positions(out@);
        assert forall|r: int| 0 <= r < o.len() implies lo <= #[trigger] o[r] < hi by {
            let v = out@[r];
            if a@.contains(v) {
                let q = choose|q: int| 0 <= q < a@.len() && a@[q] == v;
                assert(lo <= a@[q] < mid);
            } else {
                let q = choose|q: int| 0 <= q < b@.len() && b@[q] == v;
                assert(mid <= b@[q] < hi);
            }
        }
        assert forall|r: int, s: int| 0 <= r < s < o.len() implies comes(
            ks,
            #[trigger] o[r],
            #[trigger] o[s],
        ) by {
            assert(comes(ks, out@[r] as int, out@[s] as int));
        }
        assert forall|v: int| lo <= v < hi implies #[trigger] o.contains(v) by {
            if v < mid {
                assert(positions(a@).contains(v));
                let q = choose|q: int| 0 <= q < positions(a@).len() && positions(a@)[q] == v;
                assert(out@.contains(a@[q]));
                let r = choose|r: int| 0 <= r < out@.len() && out@[r] == a@[q];
                assert(o[r] == v);
            } else {
                assert(positions(b@).contains(v));
                let q = choose|q: int| 0 <= q < positions(b@).len() && positions(b@)[q] == v;
                assert(out@.contains(b@[q]));
                let r = choose|r: int| 0 <= r < out@.len() && out@[r] == b@[q];
                assert(o[r] == v);
            }
        }
    }
    out
}

/// Sorts by the keys and returns which position each thing of the sorted sequence stood at.
/// Things with equal keys keep their order.
pub fn stable_sorting<'a>(keys: &Vec<Key<'a>>) -> (out: Vec<usize>)
    ensures
        in_order(ranks(keys@), positions(out@)),
        positions(out@) == sorting(ranks(keys@)),
{
    let out = sort_range(keys, 0, keys.len());
    proof {
        sorting_is_unique(ranks(keys@), positions(out@));
    }
    out
}

proof fn lemma_place(keys: Seq<Rank>, o: Seq<int>, k: int, m: int) -> (p: int)
    requires
        arranged(keys, 0, k, o),
        0 <= m <= o.len(),
        forall|r: int| m <= r < o.len() ==> comes(keys, k, #[trigger] o[r]),
    ensures
        0 <= p <= o.len(),
        forall|r: int| 0 <= r < p ==> comes(keys, #[trigger] o[r], k),
        forall|r: int| p <= r < o.len() ==> comes(keys, k, #[trigger] o[r]),
    decreases m,
{
    lemma_comes_order(keys);
    if m > 0 && !comes(keys, o[m - 1], k) {
        assert(comes(keys, k, o[m - 1]));
        lemma_place(keys, o, k, m - 1)
    } else {
        assert forall|r: int| 0 <= r < m implies comes(keys, #[trigger] o[r], k) by {
            if r < m - 1 {
                assert(comes(keys, o[r], o[m - 1]));
            }
        }
        m
    }
}

proof fn lemma_arranged_exists(keys: Seq<Rank>, k: int) -> (o: Seq<int>)
    requires
        0 <= k <= keys.len(),
    ensures
        arranged(keys, 0, k, o),
    decreases k,
{
    if k == 0 {
        Seq::empty()
    } else {
        let before = lemma_arranged_exists(keys, k - 1);
        let p = lemma_place(keys, before, k - 1, before.len() as int);
        let o = before.insert(p, k - 1);
        assert forall|r: int, s: int| 0 <= r < s < o.len() implies comes(
            keys,
            #[trigger] o[r],
            #[trigger] o[s],
        ) by {
            if r != p {
                assert(o[r] == before[if r < p { r } else { r - 1 }]);
            }
            if s != p {
                assert(o[s] == before[if s < p { s } else { s - 1 }]);
            }
        }
        assert forall|v: int| 0 <= v < k implies #[trigger] o.contains(v) by {
            if v == k - 1 {
                assert(o[p] == v);
            } else {
                assert(before.contains(v));
                let r = choose|r: int| 0 <= r < before.len() && before[r] == v;
                assert(o[if r < p { r } else { r + 1 }] == v);
            }
        }
        o
    }
}

/// There is a stable sorting of any keys, so that `sorting` is one.
pub proof fn sorting_exists(keys: Seq<Rank>)
    ensures
        in_order(keys, sorting(keys)),
{
    let o = lemma_arranged_exists(keys, keys.len() as int);
    assert(in_order(keys, o));
}

/// Nothing comes before itself.
pub proof fn lemma_comes_irreflexive(keys: Seq<Rank>, i: int)
    ensures
        !comes(keys, i, i),
{
    lemma_comes_order(keys);
}

} // verus!
