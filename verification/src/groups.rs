//! Groups of duplicate files: their order and their totals.
use vstd::prelude::*;

use crate::order::{
    comes, in_order, lemma_comes_irreflexive, positions, rank_before, ranks, sorting,
    sorting_exists, stable_sorting, Key, Rank,
};
use crate::record::{group_view, groups_view, DuplicateGroups, FileInfo, FileView};
use crate::sequence::{lemma_filter_ends, lemma_take_filter};
use crate::tree::SortMode;

verus! {

// ---------------------------------------------------------------------------
// Order
// ---------------------------------------------------------------------------

/// Every group has a file.
pub open spec fn none_empty(groups: Seq<Seq<FileView>>) -> bool {
    forall|i: int| 0 <= i < groups.len() ==> (#[trigger] groups[i]).len() > 0
}

/// What a group is sorted by: the path of its first file; the size of its first file, the largest
/// first; the date of its first file, the latest first; or the number of its files, the most
/// first.
pub open spec fn group_rank(group: Seq<FileView>, mode: SortMode) -> Rank {
    match mode {
        SortMode::Name => Rank::Path(group[0].path),
        SortMode::Size => Rank::Large(group[0].size as int),
        SortMode::Date => Rank::Late(
            match group[0].modified {
                Some(t) => Some(t as int),
                None => None,
            },
        ),
        SortMode::Count => Rank::Large(group.len() as int),
    }
}

/// What some groups are sorted by.
pub open spec fn group_ranks(groups: Seq<Seq<FileView>>, mode: SortMode) -> Seq<Rank> {
    groups.map_values(|g: Seq<FileView>| group_rank(g, mode))
}

/// The groups in their order, those of equal rank as they stood.
pub open spec fn sorted_groups(groups: Seq<Seq<FileView>>, mode: SortMode) -> Seq<Seq<FileView>> {
    sorting(group_ranks(groups, mode)).map_values(|i: int| groups[i])
}

fn group_key<'a>(group: &'a Vec<FileInfo>, mode: SortMode) -> (r: Key<'a>)
    requires
        mode == SortMode::Count || group@.len() > 0,
    ensures
        r@ == group_rank(group_view(group@), mode),
{
    match mode {
        SortMode::Name => Key::Path(&group[0].path),
        SortMode::Size => Key::Large(group[0].size),
        SortMode::Date => Key::Late(group[0].modified),
        SortMode::Count => Key::Large(group.len() as u64),
    }
}

fn order_of_groups(groups: &DuplicateGroups, mode: SortMode) -> (r: Vec<usize>)
    requires
        mode == SortMode::Count || none_empty(groups_view(groups@)),
    ensures
        in_order(group_ranks(groups_view(groups@), mode), positions(r@)),
        positions(r@) == sorting(group_ranks(groups_view(groups@), mode)),
{
    let ghost views = groups_view(groups@);
    let mut keys: Vec<Key> = Vec::new();
    let mut i: usize = 0;
    while i < groups.len()
        invariant
            i <= groups@.len(),
            views == groups_view(groups@),
            mode == SortMode::Count || none_empty(views),
            keys@.len() == i,
            forall|j: int| 0 <= j < i ==> (#[trigger] keys@[j])@ == group_rank(views[j], mode),
        decreases groups@.len() - i,
    {
        assert(views[i as int] == group_view(groups@[i as int]@));
        keys.push(group_key(&groups[i], mode));
        i += 1;
    }
    assert(ranks(keys@) =~= group_ranks(views, mode));
    stable_sorting(&keys)
}

/// Sorts groups, which are compared by their first files, or by their numbers of files.
pub fn sort_groups(groups: &mut DuplicateGroups, mode: SortMode)
    requires
        old(groups)@.len() > 1 && mode != SortMode::Count ==> none_empty(groups_view(old(groups)@)),
    ensures
        groups_view(final(groups)@) == sorted_groups(groups_view(old(groups)@), mode),
{
    let ghost before = groups_view(groups@);
    let ghost keys = group_ranks(before, mode);
    if groups.len() <= 1 {
        proof {
            sorting_exists(keys);
            if before.len() == 1 {
                assert(sorting(keys)[0] == 0);
            }
            assert(sorted_groups(before, mode) =~= before);
        }
        return;
    }
    let order = order_of_groups(groups, mode);
    let ghost o = sorting(keys);
    let mut sorted: DuplicateGroups = Vec::new();
    let mut k: usize = 0;
    while k < order.len()
        invariant
            k <= order@.len() == before.len() == groups@.len() == keys.len(),
            in_order(keys, o),
            o == positions(order@),
            sorted@.len() == k,
            forall|r: int| 0 <= r < k ==> group_view((#[trigger] sorted@[r])@) == before[o[r]],
            forall|r: int|
                k <= r < o.len() ==> group_view(groups@[#[trigger] o[r]]@) == before[o[r]],
        decreases order@.len() - k,
    {
        assert(o[k as int] == order@[k as int]);
        let i: usize = order[k];
        let mut group: Vec<FileInfo> = Vec::new();
        let ghost left = groups@;
        std::mem::swap(&mut groups[i], &mut group);
        sorted.push(group);
        k += 1;
        assert forall|r: int| k <= r < o.len() implies group_view(groups@[#[trigger] o[r]]@)
            == before[o[r]] by {
            assert(o[r] != i) by {
                assert(comes(keys, o[k - 1], o[r]));
                lemma_comes_irreflexive(keys, o[r]);
            }
            assert(groups@[o[r]] == left[o[r]]);
        }
    }
    assert(groups_view(sorted@) =~= sorted_groups(before, mode));
    *groups = sorted;
}

/// Sorting keeps the groups: there are as many after it as before, each of them was there, and
/// each that was there still is.
pub proof fn sorting_keeps_groups(groups: Seq<Seq<FileView>>, mode: SortMode)
    ensures
        sorted_groups(groups, mode).len() == groups.len(),
        forall|i: int|
            0 <= i < groups.len() ==> groups.contains(#[trigger] sorted_groups(groups, mode)[i]),
        forall|i: int|
            0 <= i < groups.len() ==> sorted_groups(groups, mode).contains(#[trigger] groups[i]),
{
    let keys = group_ranks(groups, mode);
    let o = sorting(keys);
    let sorted = sorted_groups(groups, mode);
    sorting_exists(keys);
    assert forall|i: int| 0 <= i < groups.len() implies groups.contains(#[trigger] sorted[i]) by {
        assert(0 <= o[i] < groups.len());
        assert(sorted[i] == groups[o[i]]);
    }
    assert forall|i: int| 0 <= i < groups.len() implies sorted.contains(#[trigger] groups[i]) by {
        assert(o.contains(i));
        let r = choose|r: int| 0 <= r < o.len() && o[r] == i;
        assert(sorted[r] == groups[i]);
    }
}

/// Sorted groups stand in the order of their ranks.
pub proof fn sorted_groups_are_in_order(groups: Seq<Seq<FileView>>, mode: SortMode, i: int, j: int)
    requires
        0 <= i < j < groups.len(),
    ensures
        ({
            let a = group_rank(sorted_groups(groups, mode)[i], mode);
            let b = group_rank(sorted_groups(groups, mode)[j], mode);
            a == b || rank_before(a, b)
        }),
{
    let keys = group_ranks(groups, mode);
    let o = sorting(keys);
    sorting_exists(keys);
    assert(comes(keys, o[i], o[j]));
    assert(keys[o[i]] == group_rank(groups[o[i]], mode));
    assert(keys[o[j]] == group_rank(groups[o[j]], mode));
}

// ---------------------------------------------------------------------------
// Totals
// ---------------------------------------------------------------------------

/// How many files there are in all groups.
pub open spec fn file_total(groups: Seq<Seq<FileView>>) -> nat
    decreases groups.len(),
{
    if groups.len() == 0 {
        0
    } else {
        file_total(groups.drop_last()) + groups.last().len()
    }
}

/// How many bytes the files of all groups take up, each group by the size of its first file.
pub open spec fn held_total(groups: Seq<Seq<FileView>>) -> nat
    decreases groups.len(),
{
    if groups.len() == 0 {
        0
    } else {
        held_total(groups.drop_last()) + groups.last()[0].size as nat * groups.last().len()
    }
}

/// How many bytes the files take up beyond one of each group.
pub open spec fn wasted_total(groups: Seq<Seq<FileView>>) -> int
    decreases groups.len(),
{
    if groups.len() == 0 {
        0
    } else {
        wasted_total(groups.drop_last()) + groups.last()[0].size * (groups.last().len() - 1)
    }
}

proof fn lemma_held_grows(groups: Seq<Seq<FileView>>, i: int)
    requires
        0 <= i <= groups.len(),
    ensures
        held_total(groups.take(i)) <= held_total(groups),
    decreases groups.len(),
{
    if i < groups.len() {
        lemma_held_grows(groups.drop_last(), i);
        assert(groups.drop_last().take(i) =~= groups.take(i));
    } else {
        assert(groups.take(i) =~= groups);
    }
}

/// No more is wasted in some of the groups than in all.
pub proof fn lemma_wasted_grows(groups: Seq<Seq<FileView>>, i: int)
    requires
        none_empty(groups),
        0 <= i <= groups.len(),
    ensures
        0 <= wasted_total(groups.take(i)) <= wasted_total(groups),
    decreases groups.len(),
{
    if i < groups.len() {
        let front = groups.drop_last();
        assert forall|j: int| 0 <= j < front.len() implies (#[trigger] front[j]).len() > 0 by {
            assert(front[j] == groups[j]);
        }
        lemma_wasted_grows(front, i);
        assert(front.take(i) =~= groups.take(i));
        let size = groups.last()[0].size as int;
        let n = groups.last().len() as int;
        assert(groups.last() == groups[groups.len() - 1]);
        assert(0 <= size * (n - 1)) by (nonlinear_arith)
            requires
                size >= 0,
                n >= 1,
        ;
    } else {
        assert(groups.take(i) =~= groups);
        wasted_is_held(groups);
    }
}

proof fn lemma_file_total_grows(groups: Seq<Seq<FileView>>, i: int)
    requires
        0 <= i <= groups.len(),
    ensures
        file_total(groups.take(i)) <= file_total(groups),
    decreases groups.len(),
{
    if i < groups.len() {
        lemma_file_total_grows(groups.drop_last(), i);
        assert(groups.drop_last().take(i) =~= groups.take(i));
    } else {
        assert(groups.take(i) =~= groups);
    }
}

/// No more is wasted than is held.
pub proof fn wasted_is_held(groups: Seq<Seq<FileView>>)
    requires
        none_empty(groups),
    ensures
        0 <= wasted_total(groups) <= held_total(groups),
    decreases groups.len(),
{
    if groups.len() > 0 {
        assert forall|i: int| 0 <= i < groups.drop_last().len() implies (
        #[trigger] groups.drop_last()[i]).len() > 0 by {
            assert(groups.drop_last()[i] == groups[i]);
        }
        wasted_is_held(groups.drop_last());
        let size = groups.last()[0].size as int;
        let n = groups.last().len() as int;
        assert(groups.last() == groups[groups.len() - 1]);
        assert(0 <= size * (n - 1) <= size * n) by (nonlinear_arith)
            requires
                size >= 0,
                n >= 1,
        ;
    }
}

/// The bytes that all groups take up, and those beyond one file of each group.
pub fn size_stats(groups: &DuplicateGroups) -> (r: (u64, u64))
    requires
        none_empty(groups_view(groups@)),
        held_total(groups_view(groups@)) <= u64::MAX,
    ensures
        r.0 == held_total(groups_view(groups@)),
        r.1 == wasted_total(groups_view(groups@)),
{
    let ghost gs = groups_view(groups@);
    let mut total: u64 = 0;
    let mut wasted: u64 = 0;
    let mut i: usize = 0;
    assert(gs.take(0) =~= Seq::<Seq<FileView>>::empty());
    while i < groups.len()
        invariant
            i <= groups@.len(),
            gs == groups_view(groups@),
            none_empty(gs),
            held_total(gs) <= u64::MAX,
            total == held_total(gs.take(i as int)),
            wasted == wasted_total(gs.take(i as int)),
            wasted <= total,
        decreases groups@.len() - i,
    {
        let group = &groups[i];
        let ghost files = group_view(group@);
        assert(gs[i as int] == files);
        let size: u64 = group[0].size;
        let n: u64 = group.len() as u64;
        proof {
            lemma_held_grows(gs, i + 1);
            assert(gs.take(i + 1).drop_last() =~= gs.take(i as int));
            assert(gs.take(i + 1).last() == files);
            assert(files[0] == group@[0]@);
            assert(0 <= size * (n - 1) <= size * n) by (nonlinear_arith)
                requires
                    size >= 0,
                    n >= 1,
            ;
        }
        total += size * n;
        wasted += size * (n - 1);
        i += 1;
    }
    assert(gs.take(i as int) =~= gs);
    (total, wasted)
}

/// Whether the bytes of all groups can be counted.
pub fn stats_fit(groups: &DuplicateGroups) -> (r: bool)
    requires
        none_empty(groups_view(groups@)),
    ensures
        r == (held_total(groups_view(groups@)) <= u64::MAX),
{
    let ghost gs = groups_view(groups@);
    let mut total: u64 = 0;
    let mut i: usize = 0;
    assert(gs.take(0) =~= Seq::<Seq<FileView>>::empty());
    while i < groups.len()
        invariant
            i <= groups@.len(),
            gs == groups_view(groups@),
            none_empty(gs),
            total == held_total(gs.take(i as int)),
        decreases groups@.len() - i,
    {
        let group = &groups[i];
        let ghost files = group_view(group@);
        assert(gs[i as int] == files);
        proof {
            lemma_held_grows(gs, i + 1);
            assert(gs.take(i + 1).drop_last() =~= gs.take(i as int));
            assert(gs.take(i + 1).last() == files);
            assert(files[0] == group@[0]@);
        }
        match group[0].size.checked_mul(group.len() as u64) {
            Some(held) => match total.checked_add(held) {
                Some(sum) => {
                    total = sum;
                },
                None => {
                    return false;
                },
            },
            None => {
                return false;
            },
        }
        i += 1;
    }
    assert(gs.take(i as int) =~= gs);
    true
}

/// The number of files in all groups.
pub fn count_listed(groups: &DuplicateGroups) -> (r: usize)
    requires
        file_total(groups_view(groups@)) <= usize::MAX,
    ensures
        r == file_total(groups_view(groups@)),
{
    let ghost gs = groups_view(groups@);
    let mut total: usize = 0;
    let mut i: usize = 0;
    assert(gs.take(0) =~= Seq::<Seq<FileView>>::empty());
    while i < groups.len()
        invariant
            i <= groups@.len(),
            gs == groups_view(groups@),
            file_total(gs) <= usize::MAX,
            total == file_total(gs.take(i as int)),
        decreases groups@.len() - i,
    {
        proof {
            lemma_file_total_grows(gs, i + 1);
            assert(gs.take(i + 1).drop_last() =~= gs.take(i as int));
            assert(gs.take(i + 1).last() == gs[i as int]);
        }
        total += groups[i].len();
        i += 1;
    }
    assert(gs.take(i as int) =~= gs);
    total
}

/// Whether there is a file in every group, and all files can be counted.
pub fn groups_fit(groups: &DuplicateGroups) -> (r: bool)
    ensures
        r == (none_empty(groups_view(groups@)) && file_total(groups_view(groups@)) <= usize::MAX),
{
    let ghost gs = groups_view(groups@);
    let mut total: usize = 0;
    let mut i: usize = 0;
    assert(gs.take(0) =~= Seq::<Seq<FileView>>::empty());
    while i < groups.len()
        invariant
            i <= groups@.len(),
            gs == groups_view(groups@),
            total == file_total(gs.take(i as int)),
            forall|j: int| 0 <= j < i ==> (#[trigger] gs[j]).len() > 0,
        decreases groups@.len() - i,
    {
        proof {
            lemma_file_total_grows(gs, i + 1);
            assert(gs.take(i + 1).drop_last() =~= gs.take(i as int));
            assert(gs.take(i + 1).last() == gs[i as int]);
        }
        if groups[i].len() == 0 {
            assert(gs[i as int].len() == 0);
            return false;
        }
        match total.checked_add(groups[i].len()) {
            Some(sum) => {
                total = sum;
            },
            None => {
                return false;
            },
        }
        i += 1;
    }
    assert(gs.take(i as int) =~= gs);
    true
}

// ---------------------------------------------------------------------------
// Leaving groups out
// ---------------------------------------------------------------------------

/// Groups whose files are not below a size.
pub open spec fn of_size(min: u64) -> spec_fn(Seq<FileView>) -> bool {
    |g: Seq<FileView>| g[0].size >= min
}

/// Leaves out the groups whose files are below a size.
pub fn retain_min_size(groups: &mut DuplicateGroups, min: u64)
    requires
        none_empty(groups_view(old(groups)@)),
    ensures
        groups_view(final(groups)@) == groups_view(old(groups)@).filter(of_size(min)),
        groups_view(final(groups)@) == groups_view(old(groups)@).filter(
            |g: Seq<FileView>| g[0].size >= min,
        ),
{
    let ghost gs = groups_view(groups@);
    let ghost p = of_size(min);
    let mut kept: DuplicateGroups = Vec::new();
    let mut i: usize = 0;
    proof {
        lemma_filter_ends(gs, p);
        assert(groups_view(kept@) =~= Seq::<Seq<FileView>>::empty());
    }
    while i < groups.len()
        invariant
            i <= groups@.len() == gs.len(),
            none_empty(gs),
            p == of_size(min),
            forall|j: int| i <= j < gs.len() ==> group_view((#[trigger] groups@[j])@) == gs[j],
            groups_view(kept@) == gs.take(i as int).filter(p),
        decreases groups@.len() - i,
    {
        proof {
            lemma_take_filter(gs, p, i as int);
            assert(group_view(groups@[i as int]@) == gs[i as int]);
            assert(gs[i as int].len() > 0);
            assert(gs[i as int][0] == groups@[i as int]@[0]@);
        }
        if groups[i][0].size >= min {
            let mut group: Vec<FileInfo> = Vec::new();
            let ghost old_kept = groups_view(kept@);
            std::mem::swap(&mut groups[i], &mut group);
            kept.push(group);
            assert(groups_view(kept@) =~= old_kept.push(gs[i as int]));
        }
        i += 1;
    }
    proof {
        lemma_filter_ends(gs, p);
    }
    *groups = kept;
}

/// Leaving groups out leaves no more files.
pub proof fn filtering_leaves_no_more_files(
    groups: Seq<Seq<FileView>>,
    p: spec_fn(Seq<FileView>) -> bool,
)
    ensures
        file_total(groups.filter(p)) <= file_total(groups),
    decreases groups.len(),
{
    reveal(Seq::filter);
    if groups.len() > 0 {
        let rest = groups.drop_last().filter(p);
        filtering_leaves_no_more_files(groups.drop_last(), p);
        if p(groups.last()) {
            assert(rest.push(groups.last()).drop_last() =~= rest);
        }
    }
}

// ---------------------------------------------------------------------------
// Totals of sorted groups
// ---------------------------------------------------------------------------

/// How many files there are in the groups at some positions.
spec fn total_at(groups: Seq<Seq<FileView>>, at: Seq<int>) -> nat
    decreases at.len(),
{
    if at.len() == 0 {
        0
    } else {
        total_at(groups, at.drop_last()) + groups[at.last()].len()
    }
}

proof fn lemma_total_without(groups: Seq<Seq<FileView>>, at: Seq<int>, r: int)
    requires
        0 <= r < at.len(),
    ensures
        total_at(groups, at) == total_at(groups, at.remove(r)) + groups[at[r]].len(),
    decreases at.len(),
{
    if r == at.len() - 1 {
        assert(at.remove(r) =~= at.drop_last());
    } else {
        lemma_total_without(groups, at.drop_last(), r);
        assert(at.remove(r).drop_last() =~= at.drop_last().remove(r));
        assert(at.remove(r).last() == at.last());
    }
}

/// Positions that are all of the first `n`, each once, hold the files of the first `n` groups.
proof fn lemma_total_of_all(groups: Seq<Seq<FileView>>, at: Seq<int>, n: int)
    requires
        0 <= n <= groups.len(),
        at.len() == n,
        forall|v: int| 0 <= v < n ==> #[trigger] at.contains(v),
    ensures
        total_at(groups, at) == file_total(groups.take(n)),
    decreases n,
{
    if n > 0 {
        assert(at.contains(n - 1));
        let r = choose|r: int| 0 <= r < at.len() && at[r] == n - 1;
        let rest = at.remove(r);
        lemma_total_without(groups, at, r);
        assert forall|v: int| 0 <= v < n - 1 implies #[trigger] rest.contains(v) by {
            assert(at.contains(v));
            let s = choose|s: int| 0 <= s < at.len() && at[s] == v;
            assert(rest[if s < r { s } else { s - 1 }] == v);
        }
        lemma_total_of_all(groups, rest, n - 1);
        assert(groups.take(n).drop_last() =~= groups.take(n - 1));
    }
}

proof fn lemma_total_mapped(groups: Seq<Seq<FileView>>, at: Seq<int>)
    ensures
        file_total(at.map_values(|i: int| groups[i])) == total_at(groups, at),
    decreases at.len(),
{
    let f = |i: int| groups[i];
    if at.len() > 0 {
        lemma_total_mapped(groups, at.drop_last());
        assert(at.map_values(f).drop_last() =~= at.drop_last().map_values(f));
    }
}

/// Sorting groups leaves the number of their files as it is.
pub proof fn sorting_keeps_totals(groups: Seq<Seq<FileView>>, mode: SortMode)
    ensures
        file_total(sorted_groups(groups, mode)) == file_total(groups),
{
    let keys = group_ranks(groups, mode);
    let o = sorting(keys);
    sorting_exists(keys);
    lemma_total_mapped(groups, o);
    lemma_total_of_all(groups, o, groups.len() as int);
    assert(groups.take(groups.len() as int) =~= groups);
}

} // verus!
