//! Putting together what shares a key.
use vstd::prelude::*;

use crate::order::{comes, in_order, positions, ranks, stable_sorting, Key, Rank};
use crate::sequence::{lemma_filter_ends, lemma_take_filter};

verus! {

// ---------------------------------------------------------------------------
// Classes
// ---------------------------------------------------------------------------

/// The positions in a sequence of that length.
pub open spec fn upto(n: nat) -> Seq<int> {
    Seq::new(n, |i: int| i)
}

/// The key at a position is also that at another.
pub open spec fn is_shared(keys: Seq<(u64, u64)>, i: int) -> bool {
    exists|j: int| 0 <= j < keys.len() && j != i && #[trigger] keys[j] == keys[i]
}

/// The key at a position does not stand before it, and stands again behind it.
pub open spec fn leads(keys: Seq<(u64, u64)>, i: int) -> bool {
    &&& is_shared(keys, i)
    &&& forall|j: int| 0 <= j < i ==> #[trigger] keys[j] != keys[i]
}

/// The positions with the same key as a position has.
pub open spec fn members(keys: Seq<(u64, u64)>, i: int) -> Seq<int> {
    upto(keys.len()).filter(|j: int| keys[j] == keys[i])
}

/// The first positions of all keys that stand at two positions or more.
pub open spec fn leaders(keys: Seq<(u64, u64)>) -> Seq<int> {
    upto(keys.len()).filter(|i: int| leads(keys, i))
}

/// For each key that stands at two positions or more, its positions. The keys come in the order
/// in which they first stand.
pub open spec fn classes_of(keys: Seq<(u64, u64)>) -> Seq<Seq<int>> {
    leaders(keys).map_values(|i: int| members(keys, i))
}

proof fn lemma_upto(n: nat)
    requires
        n > 0,
    ensures
        upto(n).drop_last() == upto((n - 1) as nat),
        upto(n).last() == n - 1,
{
    assert(upto(n).drop_last() =~= upto((n - 1) as nat));
}

/// What a filter of positions keeps: those with the property, in ascending order.
pub proof fn lemma_filter_upto(n: nat, p: spec_fn(int) -> bool)
    ensures
        forall|r: int|
            0 <= r < upto(n).filter(p).len() ==> 0 <= #[trigger] upto(n).filter(p)[r] < n && p(
                upto(n).filter(p)[r],
            ),
        forall|r: int, s: int|
            0 <= r < s < upto(n).filter(p).len() ==> #[trigger] upto(n).filter(p)[r]
                < #[trigger] upto(n).filter(p)[s],
        forall|i: int| 0 <= i < n && p(i) ==> #[trigger] upto(n).filter(p).contains(i),
    decreases n,
{
    reveal(Seq::filter);
    if n > 0 {
        let m = (n - 1) as nat;
        let before = upto(m).filter(p);
        let all = upto(n).filter(p);
        lemma_upto(n);
        lemma_filter_upto(m, p);
        assert forall|i: int| 0 <= i < n && p(i) implies #[trigger] all.contains(i) by {
            if i == m {
                assert(all.last() == i);
            } else {
                assert(before.contains(i));
                let r = choose|r: int| 0 <= r < before.len() && before[r] == i;
                assert(all[r] == i);
            }
        }
    }
}

/// An ascending sequence of the positions with a property is what a filter keeps.
proof fn lemma_is_filter(n: nat, p: spec_fn(int) -> bool, s: Seq<int>)
    requires
        forall|r: int| 0 <= r < s.len() ==> 0 <= #[trigger] s[r] < n && p(s[r]),
        forall|r: int, t: int| 0 <= r < t < s.len() ==> #[trigger] s[r] < #[trigger] s[t],
        forall|i: int| 0 <= i < n && p(i) ==> #[trigger] s.contains(i),
    ensures
        s == upto(n).filter(p),
    decreases n,
{
    reveal(Seq::filter);
    if n == 0 {
        if s.len() > 0 {
            assert(0 <= s[0] < n);
        }
        assert(s =~= upto(n).filter(p));
    } else {
        let m = (n - 1) as nat;
        lemma_upto(n);
        if p(m as int) {
            assert(s.contains(m as int));
            let at = choose|r: int| 0 <= r < s.len() && s[r] == m;
            if at < s.len() - 1 {
                assert(s[at] < s[s.len() - 1]);
            }
            let front = s.drop_last();
            assert forall|r: int| 0 <= r < front.len() implies 0 <= #[trigger] front[r] < m && p(
                front[r],
            ) by {
                assert(s[r] < s[at]);
            }
            assert forall|i: int| 0 <= i < m && p(i) implies #[trigger] front.contains(i) by {
                assert(s.contains(i));
                let r = choose|r: int| 0 <= r < s.len() && s[r] == i;
                assert(front[r] == i);
            }
            lemma_is_filter(m, p, front);
            assert(s =~= front.push(m as int));
        } else {
            assert forall|r: int| 0 <= r < s.len() implies 0 <= #[trigger] s[r] < m && p(
                s[r],
            ) by {
                assert(s[r] != m);
            }
            lemma_is_filter(m, p, s);
        }
    }
}

// ---------------------------------------------------------------------------
// Runs of equal keys
// ---------------------------------------------------------------------------

spec fn pair_ranks(keys: Seq<(u64, u64)>) -> Seq<Rank> {
    keys.map_values(|k: (u64, u64)| Rank::Pair(k.0 as int, k.1 as int))
}

/// From `r` to `e` the sorted positions have the same key, and no further.
spec fn is_run(keys: Seq<(u64, u64)>, o: Seq<int>, r: int, e: int) -> bool {
    &&& 0 <= r < e <= o.len()
    &&& r == 0 || keys[o[r - 1]] != keys[o[r]]
    &&& forall|t: int| r <= t < e ==> keys[#[trigger] o[t]] == keys[o[r]]
    &&& e == o.len() || keys[o[e]] != keys[o[r]]
}

/// In sorted positions, what lies between two equal keys is equal to them.
proof fn lemma_between(keys: Seq<(u64, u64)>, o: Seq<int>, r: int, s: int, t: int)
    requires
        in_order(pair_ranks(keys), o),
        0 <= r <= s <= t < o.len(),
        keys[o[r]] == keys[o[t]],
    ensures
        keys[o[s]] == keys[o[r]],
{
    let ks = pair_ranks(keys);
    if r < s && s < t {
        assert(comes(ks, o[r], o[s]));
        assert(comes(ks, o[s], o[t]));
    }
}

proof fn lemma_run(keys: Seq<(u64, u64)>, o: Seq<int>, r: int, e: int)
    requires
        in_order(pair_ranks(keys), o),
        is_run(keys, o, r, e),
    ensures
        o.subrange(r, e) == members(keys, o[r]),
        leads(keys, o[r]) <==> e - r >= 2,
{
    let ks = pair_ranks(keys);
    let own = o.subrange(r, e);
    let key = keys[o[r]];
    assert forall|t: int, u: int| r <= t < u < e implies #[trigger] o[t] < #[trigger] o[u] by {
        assert(comes(ks, o[t], o[u]));
        assert(keys[o[t]] == key && keys[o[u]] == key);
    }
    assert forall|i: int| 0 <= i < keys.len() && keys[i] == key implies #[trigger] own.contains(
        i,
    ) by {
        assert(o.contains(i));
        let t = choose|t: int| 0 <= t < o.len() && o[t] == i;
        if t < r {
            lemma_between(keys, o, t, r - 1, r);
        }
        if t >= e {
            lemma_between(keys, o, r, e, t);
        }
        assert(own[t - r] == i);
    }
    assert forall|a: int, b: int| 0 <= a < b < own.len() implies #[trigger] own[a]
        < #[trigger] own[b] by {
        assert(o[r + a] < o[r + b]);
    }
    assert forall|a: int| 0 <= a < own.len() implies 0 <= #[trigger] own[a] < keys.len()
        && keys[own[a]] == key by {
        assert(keys[o[r + a]] == key);
    }
    lemma_is_filter(keys.len(), |j: int| keys[j] == keys[o[r]], own);
    assert forall|j: int| 0 <= j < o[r] implies #[trigger] keys[j] != key by {
        if keys[j] == key {
            assert(own.contains(j));
            let a = choose|a: int| 0 <= a < own.len() && own[a] == j;
            if a > 0 {
                assert(own[0] < own[a]);
            }
        }
    }
    if e - r >= 2 {
        assert(keys[o[r + 1]] == key);
        assert(o[r] < o[r + 1]);
    } else if is_shared(keys, o[r]) {
        let j = choose|j: int| 0 <= j < keys.len() && j != o[r] && #[trigger] keys[j] == keys[o[r]];
        assert(own.contains(j));
        let a = choose|a: int| 0 <= a < own.len() && own[a] == j;
        assert(a == 0);
    }
}

/// In a run only its first position can lead.
proof fn lemma_inside_run(keys: Seq<(u64, u64)>, o: Seq<int>, r: int, e: int, t: int)
    requires
        in_order(pair_ranks(keys), o),
        is_run(keys, o, r, e),
        r < t < e,
    ensures
        !leads(keys, o[t]),
{
    assert(comes(pair_ranks(keys), o[r], o[t]));
    assert(keys[o[t]] == keys[o[r]]);
}

/// The runs of the sorted positions, each by its first position: the place at which it starts
/// there and its length. A position that starts no run has length 0.
fn runs(keys: &Vec<(u64, u64)>, order: &Vec<usize>) -> (r: (Vec<usize>, Vec<usize>))
    requires
        in_order(pair_ranks(keys@), positions(order@)),
    ensures
        r.0@.len() == keys@.len(),
        r.1@.len() == keys@.len(),
        forall|t: int|
            0 <= t < keys@.len() ==> {
                let i = #[trigger] positions(order@)[t];
                if r.1@[i] == 0 {
                    !leads(keys@, i)
                } else {
                    r.0@[i] == t && is_run(keys@, positions(order@), t, t + r.1@[i])
                }
            },
{
    let ghost o = positions(order@);
    let n: usize = keys.len();
    let mut starts: Vec<usize> = Vec::new();
    let mut lens: Vec<usize> = Vec::new();
    let mut i: usize = 0;
    while i < n
        invariant
            i <= n,
            starts@.len() == i,
            lens@.len() == i,
            forall|j: int| 0 <= j < i ==> #[trigger] lens@[j] == 0,
        decreases n - i,
    {
        starts.push(0);
        lens.push(0);
        i += 1;
    }
    let mut p: usize = 0;
    while p < n
        invariant
            n == keys@.len() == order@.len(),
            o == positions(order@),
            in_order(pair_ranks(keys@), o),
            starts@.len() == n,
            lens@.len() == n,
            p <= n,
            p == 0 || p == n || keys@[o[p - 1]] != keys@[o[p as int]],
            forall|t: int|
                0 <= t < p ==> {
                    let i = #[trigger] o[t];
                    if lens@[i] == 0 {
                        !leads(keys@, i)
                    } else {
                        starts@[i] == t && is_run(keys@, o, t, t + lens@[i])
                    }
                },
            forall|t: int| p <= t < n ==> lens@[#[trigger] o[t]] == 0,
        decreases n - p,
    {
        let mut q: usize = p + 1;
        assert forall|t: int| 0 <= t < n implies (#[trigger] order@[t]) < n by {
            assert(o[t] == order@[t]);
        }
        assert(o[p as int] == order@[p as int]);
        let first: usize = order[p];
        while q < n && keys[order[q]].0 == keys[first].0 && keys[order[q]].1 == keys[first].1
            invariant
                n == keys@.len() == order@.len(),
                o == positions(order@),
                in_order(pair_ranks(keys@), o),
                first == o[p as int],
                p < q <= n,
                first < n,
                forall|t: int| p <= t < q ==> keys@[#[trigger] o[t]] == keys@[first as int],
                forall|t: int| 0 <= t < n ==> (#[trigger] order@[t]) < n,
            ensures
                p < q <= n,
                forall|t: int| p <= t < q ==> keys@[#[trigger] o[t]] == keys@[first as int],
                q == n || keys@[o[q as int]] != keys@[first as int],
            decreases n - q,
        {
            assert(o[q as int] == order@[q as int]);
            q += 1;
        }
        let ghost lens0 = lens@;
        let ghost starts0 = starts@;
        starts.set(first, p);
        lens.set(first, q - p);
        proof {
            assert(is_run(keys@, o, p as int, q as int));
            let ks = pair_ranks(keys@);
            assert forall|t: int| 0 <= t < n && t != p implies #[trigger] o[t] != first by {
                if t < p {
                    assert(comes(ks, o[t], o[p as int]));
                } else {
                    assert(comes(ks, o[p as int], o[t]));
                }
            }
            assert forall|t: int| 0 <= t < q implies {
                let i = #[trigger] o[t];
                if lens@[i] == 0 {
                    !leads(keys@, i)
                } else {
                    starts@[i] == t && is_run(keys@, o, t, t + lens@[i])
                }
            } by {
                if p < t {
                    lemma_inside_run(keys@, o, p as int, q as int, t);
                    assert(lens0[o[t]] == 0);
                }
            }
            if q < n {
                assert(keys@[o[q - 1]] == keys@[first as int]);
            }
        }
        p = q;
    }
    (starts, lens)
}

fn sort_pairs(keys: &Vec<(u64, u64)>) -> (r: Vec<usize>)
    ensures
        in_order(pair_ranks(keys@), positions(r@)),
{
    let mut ks: Vec<Key> = Vec::new();
    let mut i: usize = 0;
    while i < keys.len()
        invariant
            i <= keys@.len(),
            ks@.len() == i,
            forall|j: int|
                0 <= j < i ==> (#[trigger] ks@[j])@ == Rank::Pair(
                    keys@[j].0 as int,
                    keys@[j].1 as int,
                ),
        decreases keys@.len() - i,
    {
        ks.push(Key::Pair(keys[i].0, keys[i].1));
        i += 1;
    }
    assert(ranks(ks@) =~= pair_ranks(keys@));
    stable_sorting(&ks)
}

/// What classes of positions stand for.
pub open spec fn classes_view(classes: Seq<Vec<usize>>) -> Seq<Seq<int>> {
    classes.map_values(|c: Vec<usize>| positions(c@))
}

/// Puts together the positions that share a key, where there are two or more.
pub fn classes(keys: &Vec<(u64, u64)>) -> (r: Vec<Vec<usize>>)
    ensures
        classes_view(r@) == classes_of(keys@),
{
    let order = sort_pairs(keys);
    let (starts, lens) = runs(keys, &order);
    let ghost o = positions(order@);
    let ghost all = upto(keys@.len());
    let ghost p = |i: int| leads(keys@, i);
    let ghost f = |i: int| members(keys@, i);
    let mut out: Vec<Vec<usize>> = Vec::new();
    let mut i: usize = 0;
    proof {
        lemma_filter_ends(all, p);
        assert(classes_view(out@) =~= all.take(0).filter(p).map_values(f));
    }
    while i < keys.len()
        invariant
            i <= keys@.len(),
            o == positions(order@),
            order@.len() == keys@.len(),
            in_order(pair_ranks(keys@), o),
            starts@.len() == keys@.len(),
            lens@.len() == keys@.len(),
            all == upto(keys@.len()),
            p == (|i: int| leads(keys@, i)),
            f == (|i: int| members(keys@, i)),
            forall|t: int|
                0 <= t < keys@.len() ==> {
                    let i = #[trigger] o[t];
                    if lens@[i] == 0 {
                        !leads(keys@, i)
                    } else {
                        starts@[i] == t && is_run(keys@, o, t, t + lens@[i])
                    }
                },
            classes_view(out@) == all.take(i as int).filter(p).map_values(f),
        decreases keys@.len() - i,
    {
        let ghost before = classes_view(out@);
        proof {
            lemma_take_filter(all, p, i as int);
            assert(o.contains(i as int));
            let t = choose|t: int| 0 <= t < o.len() && o[t] == i;
            if lens@[i as int] > 0 {
                assert(starts@[i as int] == t);
                lemma_run(keys@, o, t, t + lens@[i as int]);
            }
        }
        if lens[i] >= 2 {
            let from: usize = starts[i];
            let to: usize = from + lens[i];
            let mut class: Vec<usize> = Vec::new();
            let mut k: usize = from;
            while k < to
                invariant
                    from <= k <= to <= order@.len(),
                    class@ == order@.subrange(from as int, k as int),
                decreases to - k,
            {
                class.push(order[k]);
                k += 1;
                assert(class@ =~= order@.subrange(from as int, k as int));
            }
            assert(positions(class@) =~= o.subrange(from as int, to as int));
            out.push(class);
            assert(classes_view(out@) =~= before.push(members(keys@, i as int)));
        }
        i += 1;
        assert(classes_view(out@) =~= all.take(i as int).filter(p).map_values(f));
    }
    proof {
        lemma_filter_ends(all, p);
    }
    out
}

/// For each position, whether its key also stands at another.
pub fn shared(keys: &Vec<(u64, u64)>) -> (r: Vec<bool>)
    ensures
        r@.len() == keys@.len(),
        forall|i: int| 0 <= i < keys@.len() ==> #[trigger] r@[i] == is_shared(keys@, i),
{
    let groups = classes(keys);
    let ghost cs = classes_of(keys@);
    let mut flags: Vec<bool> = Vec::new();
    let mut i: usize = 0;
    while i < keys.len()
        invariant
            i <= keys@.len(),
            flags@.len() == i,
            forall|j: int| 0 <= j < i ==> !(#[trigger] flags@[j]),
        decreases keys@.len() - i,
    {
        flags.push(false);
        i += 1;
    }
    let mut g: usize = 0;
    while g < groups.len()
        invariant
            g <= groups@.len(),
            cs == classes_of(keys@),
            classes_view(groups@) == cs,
            flags@.len() == keys@.len(),
            forall|j: int|
                0 <= j < keys@.len() ==> (#[trigger] flags@[j] <==> in_first(cs, g as int, j)),
        decreases groups@.len() - g,
    {
        let ghost before = flags@;
        let class = &groups[g];
        assert(cs[g as int] == positions(class@));
        proof {
            lemma_members_in_range(keys@, g as int);
            assert forall|r: int| 0 <= r < class@.len() implies #[trigger] class@[r]
                < keys@.len() by {
                assert(cs[g as int][r] == class@[r]);
            }
        }
        let mut k: usize = 0;
        while k < class.len()
            invariant
                k <= class@.len(),
                flags@.len() == before.len() == keys@.len(),
                forall|r: int| 0 <= r < class@.len() ==> #[trigger] class@[r] < keys@.len(),
                forall|j: int|
                    0 <= j < keys@.len() ==> (#[trigger] flags@[j] <==> before[j]
                        || positions(class@).take(k as int).contains(j)),
            decreases class@.len() - k,
        {
            let ghost flags0 = flags@;
            let i: usize = class[k];
            flags.set(i, true);
            proof {
                let ps = positions(class@);
                let had = ps.take(k as int);
                let has = ps.take(k + 1);
                assert(has =~= had.push(i as int));
                assert(has[k as int] == i);
                assert forall|j: int| 0 <= j < keys@.len() implies (#[trigger] flags@[j]
                    <==> before[j] || has.contains(j)) by {
                    if had.contains(j) {
                        let r = choose|r: int| 0 <= r < had.len() && had[r] == j;
                        assert(has[r] == j);
                    }
                    if has.contains(j) && j != i {
                        let r = choose|r: int| 0 <= r < has.len() && has[r] == j;
                        assert(had[r] == j);
                    }
                }
            }
            k += 1;
        }
        proof {
            assert(positions(class@).take(k as int) =~= cs[g as int]);
            assert forall|j: int| 0 <= j < keys@.len() implies (#[trigger] flags@[j] <==> in_first(
                cs,
                g + 1,
                j,
            )) by {
                if in_first(cs, g + 1, j) {
                    let h = choose|h: int| 0 <= h < g + 1 && (#[trigger] cs[h]).contains(j);
                    if h < g {
                        assert(in_first(cs, g as int, j));
                    }
                }
                if in_first(cs, g as int, j) {
                    let h = choose|h: int| 0 <= h < g && (#[trigger] cs[h]).contains(j);
                    assert(in_first(cs, g + 1, j));
                }
                if cs[g as int].contains(j) {
                    assert(in_first(cs, g + 1, j));
                }
            }
        }
        g += 1;
    }
    proof {
        assert forall|i: int| 0 <= i < keys@.len() implies #[trigger] flags@[i] == is_shared(
            keys@,
            i,
        ) by {
            classes_hold_what_is_shared(keys@, i);
            if in_first(cs, cs.len() as int, i) {
                let h = choose|h: int| 0 <= h < cs.len() && (#[trigger] cs[h]).contains(i);
                assert(in_class(keys@, h, i));
            }
            if is_shared(keys@, i) {
                let h = choose|h: int| in_class(keys@, h, i);
                assert(cs[h].contains(i));
            }
        }
    }
    flags
}

spec fn in_first(cs: Seq<Seq<int>>, n: int, i: int) -> bool {
    exists|h: int| 0 <= h < n && (#[trigger] cs[h]).contains(i)
}

// ---------------------------------------------------------------------------
// What holds of classes
// ---------------------------------------------------------------------------

/// A position is in a class.
pub open spec fn in_class(keys: Seq<(u64, u64)>, g: int, i: int) -> bool {
    0 <= g < classes_of(keys).len() && classes_of(keys)[g].contains(i)
}

/// Classes hold positions.
pub proof fn lemma_members_in_range(keys: Seq<(u64, u64)>, g: int)
    requires
        0 <= g < classes_of(keys).len(),
    ensures
        forall|r: int|
            0 <= r < classes_of(keys)[g].len() ==> 0 <= #[trigger] classes_of(keys)[g][r]
                < keys.len(),
{
    lemma_filter_upto(keys.len(), |j: int| keys[j] == keys[leaders(keys)[g]]);
}

/// Each class holds the positions of one key, two or more, each once.
pub proof fn classes_share_a_key(keys: Seq<(u64, u64)>, g: int)
    requires
        0 <= g < classes_of(keys).len(),
    ensures
        classes_of(keys)[g].len() >= 2,
        forall|r: int, s: int|
            0 <= r < s < classes_of(keys)[g].len() ==> 0 <= #[trigger] classes_of(keys)[g][r]
                < #[trigger] classes_of(keys)[g][s] < keys.len() && keys[classes_of(keys)[g][r]]
                == keys[classes_of(keys)[g][s]],
{
    let i = leaders(keys)[g];
    let p = |j: int| keys[j] == keys[i];
    lemma_filter_upto(keys.len(), |i: int| leads(keys, i));
    lemma_filter_upto(keys.len(), p);
    assert(leads(keys, i));
    let j = choose|j: int| 0 <= j < keys.len() && j != i && #[trigger] keys[j] == keys[i];
    let class = members(keys, i);
    assert(class.contains(i) && class.contains(j));
    let a = choose|a: int| 0 <= a < class.len() && class[a] == i;
    let b = choose|b: int| 0 <= b < class.len() && class[b] == j;
    assert(a != b);
}

proof fn lemma_first(keys: Seq<(u64, u64)>, i: int) -> (f: int)
    requires
        0 <= i < keys.len(),
    ensures
        0 <= f <= i,
        keys[f] == keys[i],
        forall|j: int| 0 <= j < f ==> #[trigger] keys[j] != keys[i],
    decreases i,
{
    if exists|j: int| 0 <= j < i && #[trigger] keys[j] == keys[i] {
        let j = choose|j: int| 0 <= j < i && #[trigger] keys[j] == keys[i];
        lemma_first(keys, j)
    } else {
        i
    }
}

/// A position is in a class if and only if its key also stands at another.
pub proof fn classes_hold_what_is_shared(keys: Seq<(u64, u64)>, i: int)
    requires
        0 <= i < keys.len(),
    ensures
        is_shared(keys, i) <==> exists|g: int| in_class(keys, g, i),
{
    let lead = |i: int| leads(keys, i);
    lemma_filter_upto(keys.len(), lead);
    if is_shared(keys, i) {
        let f = lemma_first(keys, i);
        let j = choose|j: int| 0 <= j < keys.len() && j != i && #[trigger] keys[j] == keys[i];
        assert(is_shared(keys, f)) by {
            if f == i {
                assert(keys[j] == keys[f]);
            } else {
                assert(keys[i] == keys[f]);
            }
        }
        assert(leaders(keys).contains(f));
        let g = choose|g: int| 0 <= g < leaders(keys).len() && leaders(keys)[g] == f;
        lemma_filter_upto(keys.len(), |j: int| keys[j] == keys[f]);
        assert(members(keys, f).contains(i));
        assert(in_class(keys, g, i));
    }
    if exists|g: int| in_class(keys, g, i) {
        let g = choose|g: int| in_class(keys, g, i);
        let f = leaders(keys)[g];
        let p = |j: int| keys[j] == keys[f];
        lemma_filter_upto(keys.len(), p);
        assert(leads(keys, f));
        let class = members(keys, f);
        let a = choose|a: int| 0 <= a < class.len() && class[a] == i;
        assert(keys[i] == keys[f]);
        if i == f {
            assert(is_shared(keys, f));
        } else {
            assert(keys[f] == keys[i]);
        }
    }
}

/// Positions with the same key are in the same class, and a position is in no two classes.
pub proof fn classes_part_the_positions(keys: Seq<(u64, u64)>, g: int, h: int, i: int, j: int)
    requires
        in_class(keys, g, i),
        in_class(keys, h, j),
        0 <= i < keys.len(),
        0 <= j < keys.len(),
    ensures
        keys[i] == keys[j] <==> g == h,
{
    let f = leaders(keys)[g];
    let e = leaders(keys)[h];
    lemma_filter_upto(keys.len(), |i: int| leads(keys, i));
    lemma_filter_upto(keys.len(), |j: int| keys[j] == keys[f]);
    lemma_filter_upto(keys.len(), |j: int| keys[j] == keys[e]);
    assert(leads(keys, f) && leads(keys, e));
    let a = choose|a: int| 0 <= a < members(keys, f).len() && members(keys, f)[a] == i;
    let b = choose|b: int| 0 <= b < members(keys, e).len() && members(keys, e)[b] == j;
    assert(keys[i] == keys[f] && keys[j] == keys[e]);
    if keys[i] == keys[j] && g != h {
        if g < h {
            assert(leaders(keys)[g] < leaders(keys)[h]);
            assert(keys[f] != keys[e]);
        } else {
            assert(leaders(keys)[h] < leaders(keys)[g]);
            assert(keys[e] != keys[f]);
        }
    }
}

} // verus!
