//! Facts about sequences.
use vstd::prelude::*;

verus! {

/// What a filter keeps of one element more.
pub proof fn lemma_take_filter<T>(s: Seq<T>, p: spec_fn(T) -> bool, i: int)
    requires
        0 <= i < s.len(),
    ensures
        s.take(i + 1).filter(p) == if p(s[i]) {
            s.take(i).filter(p).push(s[i])
        } else {
            s.take(i).filter(p)
        },
{
    reveal(Seq::filter);
    assert(s.take(i + 1).drop_last() =~= s.take(i));
    assert(s.take(i + 1).last() == s[i]);
}

/// A filter keeps nothing of nothing, and looks at all of a sequence.
pub proof fn lemma_filter_ends<T>(s: Seq<T>, p: spec_fn(T) -> bool)
    ensures
        s.take(0).filter(p) == Seq::<T>::empty(),
        s.take(s.len() as int) == s,
{
    reveal(Seq::filter);
    assert(s.take(0) =~= Seq::<T>::empty());
    assert(s.take(s.len() as int) =~= s);
}

/// What a filter keeps was there.
pub proof fn lemma_filter_part<T>(s: Seq<T>, p: spec_fn(T) -> bool, k: int)
    requires
        0 <= k < s.filter(p).len(),
    ensures
        s.contains(s.filter(p)[k]),
    decreases s.len(),
{
    reveal(Seq::filter);
    if s.len() > 0 {
        let rest = s.drop_last().filter(p);
        if k < rest.len() {
            lemma_filter_part(s.drop_last(), p, k);
            let i = choose|i: int| 0 <= i < s.drop_last().len() && s.drop_last()[i] == rest[k];
            assert(s[i] == rest[k]);
        } else {
            assert(s[s.len() - 1] == s.last());
        }
    }
}

/// What a filter keeps differs in some respect, where what it may keep does.
pub proof fn lemma_filter_distinct<T, U>(s: Seq<T>, p: spec_fn(T) -> bool, f: spec_fn(T) -> U)
    requires
        forall|i: int, j: int|
            0 <= i < j < s.len() && p(#[trigger] s[i]) && p(#[trigger] s[j]) ==> f(s[i]) != f(s[j]),
    ensures
        s.filter(p).map_values(f).no_duplicates(),
    decreases s.len(),
{
    reveal(Seq::filter);
    if s.len() > 0 {
        let front = s.drop_last();
        let rest = front.filter(p);
        assert forall|i: int, j: int|
            0 <= i < j < front.len() && p(#[trigger] front[i]) && p(#[trigger] front[j]) implies f(
            front[i],
        ) != f(front[j]) by {
            assert(front[i] == s[i] && front[j] == s[j]);
        }
        lemma_filter_distinct(front, p, f);
        let all = s.filter(p).map_values(f);
        assert forall|i: int, j: int| 0 <= i < all.len() && 0 <= j < all.len() && i != j implies
            all[i] != all[j] by {
            let few = rest.map_values(f);
            if i < rest.len() && j < rest.len() {
                assert(few[i] == all[i] && few[j] == all[j]);
            } else {
                let k = if i < j {
                    i
                } else {
                    j
                };
                front.lemma_filter_pred(p, k);
                lemma_filter_part(front, p, k);
                let m = choose|m: int| 0 <= m < front.len() && front[m] == rest[k];
                assert(p(s[m]) && p(s[s.len() - 1]));
                assert(f(s[m]) != f(s[s.len() - 1]));
            }
        }
    }
}

/// Positions that ascend, all below `n`.
pub open spec fn ascend_below(at: Seq<int>, n: int) -> bool {
    &&& forall|k: int| 0 <= k < at.len() ==> 0 <= #[trigger] at[k] < n
    &&& forall|k: int, l: int| 0 <= k < l < at.len() ==> #[trigger] at[k] < #[trigger] at[l]
}

/// The positions of what a filter keeps: they ascend, and none is left out.
pub proof fn lemma_filter_places<T>(s: Seq<T>, p: spec_fn(T) -> bool) -> (at: Seq<int>)
    ensures
        at.len() == s.filter(p).len(),
        ascend_below(at, s.len() as int),
        forall|k: int|
            0 <= k < at.len() ==> s.filter(p)[k] == s[#[trigger] at[k]] && p(s[at[k]]),
        forall|i: int| 0 <= i < s.len() && p(#[trigger] s[i]) ==> at.contains(i),
    decreases s.len(),
{
    reveal(Seq::filter);
    if s.len() == 0 {
        Seq::empty()
    } else {
        let front = s.drop_last();
        let some = lemma_filter_places(front, p);
        assert forall|k: int| 0 <= k < some.len() implies front[#[trigger] some[k]] == s[some[k]] by {}
        if p(s.last()) {
            let at = some.push(s.len() - 1);
            assert forall|i: int| 0 <= i < s.len() && p(#[trigger] s[i]) implies at.contains(i) by {
                if i < front.len() {
                    assert(p(front[i]));
                    let k = choose|k: int| 0 <= k < some.len() && some[k] == i;
                    assert(at[k] == i);
                } else {
                    assert(at[some.len() as int] == i);
                }
            }
            at
        } else {
            assert forall|i: int| 0 <= i < s.len() && p(#[trigger] s[i]) implies some.contains(i) by {
                assert(p(front[i]));
            }
            some
        }
    }
}

/// Positions that ascend are determined by what they are.
pub proof fn ascending_positions_are_unique(a: Seq<int>, b: Seq<int>, n: int)
    requires
        ascend_below(a, n),
        ascend_below(b, n),
        forall|k: int| 0 <= k < a.len() ==> b.contains(#[trigger] a[k]),
        forall|k: int| 0 <= k < b.len() ==> a.contains(#[trigger] b[k]),
    ensures
        a == b,
    decreases a.len(),
{
    if a.len() == 0 {
        if b.len() > 0 {
            assert(a.contains(b[0]));
        }
        assert(a =~= b);
    } else {
        assert(b.contains(a[a.len() - 1]));
        let i = choose|i: int| 0 <= i < b.len() && b[i] == a[a.len() - 1];
        assert(a.contains(b[b.len() - 1]));
        let j = choose|j: int| 0 <= j < a.len() && a[j] == b[b.len() - 1];
        if i < b.len() - 1 {
            assert(b[i] < b[b.len() - 1]);
            if j < a.len() - 1 {
                assert(a[j] < a[a.len() - 1]);
            }
        }
        assert(a.last() == b.last());
        let x = a.drop_last();
        let y = b.drop_last();
        assert forall|k: int| 0 <= k < x.len() implies y.contains(#[trigger] x[k]) by {
            assert(b.contains(a[k]));
            let m = choose|m: int| 0 <= m < b.len() && b[m] == a[k];
            assert(a[k] < a[a.len() - 1]);
            assert(y[m] == x[k]);
        }
        assert forall|k: int| 0 <= k < y.len() implies x.contains(#[trigger] y[k]) by {
            assert(a.contains(b[k]));
            let m = choose|m: int| 0 <= m < a.len() && a[m] == b[k];
            assert(b[k] < b[b.len() - 1]);
            assert(x[m] == y[k]);
        }
        ascending_positions_are_unique(x, y, n);
        assert(a =~= x.push(a.last()));
        assert(b =~= y.push(b.last()));
    }
}

/// Filters that agree on each element keep the same.
pub proof fn lemma_filter_same<T>(s: Seq<T>, p: spec_fn(T) -> bool, q: spec_fn(T) -> bool)
    requires
        forall|i: int| 0 <= i < s.len() ==> p(#[trigger] s[i]) == q(s[i]),
    ensures
        s.filter(p) == s.filter(q),
    decreases s.len(),
{
    reveal(Seq::filter);
    if s.len() > 0 {
        let front = s.drop_last();
        assert forall|i: int| 0 <= i < front.len() implies p(#[trigger] front[i]) == q(front[i]) by {
            assert(front[i] == s[i]);
        }
        lemma_filter_same(front, p, q);
        assert(p(s[s.len() - 1]) == q(s[s.len() - 1]));
    }
}

} // verus!
