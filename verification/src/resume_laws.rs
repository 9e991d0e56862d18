//! What an interrupted scan finds once it is taken up again.
use vstd::multiset::Multiset;
use vstd::prelude::*;

use crate::path::{path_parent, PathView, Step};
use crate::record::FileView;
use crate::scan_laws::{
    agrees, answer, answered, duplicates, duplicates_are_genuine, entry_in, every_step_agrees,
    files_stay_after_the_walk, found_files_are_candidates, holds_both,
    interrupted_scans_are_resumed, is_candidate, matched, matching_candidates_are_found,
    no_file_is_found_twice, paths_differ, shares_start, truthful, was_found, Reading,
};
use crate::scanner::{
    action_after, compared, fresh_state, info_of, is_compared, state_after, ActionView, DirItem,
    EntryView, EventView, ScanPhase, StateView,
};
use crate::sequence::{lemma_filter_distinct, lemma_filter_part};

verus! {

// ---------------------------------------------------------------------------
// Walking
// ---------------------------------------------------------------------------

/// The state once some directories were read one after the other. What is found in a directory is
/// the same each time.
pub open spec fn walked(
    s: StateView,
    dirs: Seq<Seq<Step>>,
    read: spec_fn(Seq<Step>) -> Option<Seq<DirItem>>,
) -> StateView
    decreases dirs.len(),
{
    if dirs.len() == 0 {
        s
    } else {
        state_after(
            walked(s, dirs.drop_last(), read),
            EventView::DirRead { dir: dirs.last(), items: read(dirs.last()) },
        )
    }
}

/// The files that are compared of what was found in a directory.
pub open spec fn found_in(items: Option<Seq<DirItem>>) -> Seq<EntryView> {
    match items {
        Some(v) => compared(v),
        None => seq![],
    }
}

/// The directories that were not read before, each at its first reading.
spec fn fresh(known: Set<Seq<Step>>, dirs: Seq<Seq<Step>>) -> Seq<Seq<Step>>
    decreases dirs.len(),
{
    if dirs.len() == 0 {
        seq![]
    } else {
        let front = dirs.drop_last();
        if known.contains(dirs.last()) || front.contains(dirs.last()) {
            fresh(known, front)
        } else {
            fresh(known, front).push(dirs.last())
        }
    }
}

/// The files of some directories, in no order.
spec fn files_in(
    dirs: Seq<Seq<Step>>,
    read: spec_fn(Seq<Step>) -> Option<Seq<DirItem>>,
) -> Multiset<EntryView>
    decreases dirs.len(),
{
    if dirs.len() == 0 {
        Multiset::empty()
    } else {
        files_in(dirs.drop_last(), read).add(found_in(read(dirs.last())).to_multiset())
    }
}

proof fn lemma_fresh(known: Set<Seq<Step>>, dirs: Seq<Seq<Step>>)
    ensures
        fresh(known, dirs).no_duplicates(),
        forall|d: Seq<Step>| #[trigger]
            fresh(known, dirs).contains(d) <==> dirs.contains(d) && !known.contains(d),
    decreases dirs.len(),
{
    if dirs.len() > 0 {
        let front = dirs.drop_last();
        let last = dirs.last();
        let before = fresh(known, front);
        let all = fresh(known, dirs);
        lemma_fresh(known, front);
        assert forall|d: Seq<Step>| #[trigger] all.contains(d) <==> dirs.contains(d)
            && !known.contains(d) by {
            assert(dirs[dirs.len() - 1] == last);
            if dirs.contains(d) && d != last {
                let i = choose|i: int| 0 <= i < dirs.len() && dirs[i] == d;
                assert(front[i] == d);
            }
            if front.contains(d) {
                let i = choose|i: int| 0 <= i < front.len() && front[i] == d;
                assert(dirs[i] == d);
            }
            if all != before {
                assert(all == before.push(last));
                assert(all[before.len() as int] == last);
                if before.contains(d) {
                    let i = choose|i: int| 0 <= i < before.len() && before[i] == d;
                    assert(all[i] == d);
                }
                if all.contains(d) && d != last {
                    let i = choose|i: int| 0 <= i < all.len() && all[i] == d;
                    assert(before[i] == d);
                }
            }
            assert(before.contains(d) <==> front.contains(d) && !known.contains(d));
        }
        if all != before {
            assert forall|i: int, j: int| 0 <= i < all.len() && 0 <= j < all.len() && i != j implies
                all[i] != all[j] by {
                let k = if i < j {
                    i
                } else {
                    j
                };
                assert(before.contains(before[k]));
            }
        }
    }
}

proof fn lemma_files_without(
    dirs: Seq<Seq<Step>>,
    read: spec_fn(Seq<Step>) -> Option<Seq<DirItem>>,
    r: int,
)
    requires
        0 <= r < dirs.len(),
    ensures
        files_in(dirs, read) == files_in(dirs.remove(r), read).add(
            found_in(read(dirs[r])).to_multiset(),
        ),
    decreases dirs.len(),
{
    broadcast use vstd::multiset::group_multiset_axioms;

    if r == dirs.len() - 1 {
        assert(dirs.remove(r) =~= dirs.drop_last());
    } else {
        lemma_files_without(dirs.drop_last(), read, r);
        assert(dirs.remove(r).drop_last() =~= dirs.drop_last().remove(r));
        assert(dirs.remove(r).last() == dirs.last());
        assert(files_in(dirs, read) =~= files_in(dirs.remove(r), read).add(
            found_in(read(dirs[r])).to_multiset(),
        ));
    }
}

proof fn lemma_same_dirs(
    a: Seq<Seq<Step>>,
    b: Seq<Seq<Step>>,
    read: spec_fn(Seq<Step>) -> Option<Seq<DirItem>>,
)
    requires
        a.no_duplicates(),
        b.no_duplicates(),
        forall|d: Seq<Step>| #[trigger] a.contains(d) <==> b.contains(d),
    ensures
        files_in(a, read) == files_in(b, read),
    decreases a.len(),
{
    if a.len() == 0 {
        if b.len() > 0 {
            assert(b.contains(b[0]));
            assert(a.contains(b[0]));
        }
    } else {
        let front = a.drop_last();
        let last = a.last();
        assert(a.contains(last));
        let r = choose|r: int| 0 <= r < b.len() && b[r] == last;
        let rest = b.remove(r);
        lemma_files_without(b, read, r);
        assert forall|d: Seq<Step>| #[trigger] front.contains(d) <==> rest.contains(d) by {
            if front.contains(d) {
                let i = choose|i: int| 0 <= i < front.len() && front[i] == d;
                assert(a[i] == d && d != last);
                assert(a.contains(d));
                let j = choose|j: int| 0 <= j < b.len() && b[j] == d;
                assert(rest[if j < r { j } else { j - 1 }] == d);
            }
            if rest.contains(d) {
                let i = choose|i: int| 0 <= i < rest.len() && rest[i] == d;
                let j = if i < r {
                    i
                } else {
                    i + 1
                };
                assert(b[j] == d && d != last);
                assert(b.contains(d));
                assert(a.contains(d));
                let k = choose|k: int| 0 <= k < a.len() && a[k] == d;
                assert(front[k] == d);
            }
        }
        lemma_same_dirs(front, rest, read);
    }
}

proof fn lemma_walked(
    s: StateView,
    dirs: Seq<Seq<Step>>,
    read: spec_fn(Seq<Step>) -> Option<Seq<DirItem>>,
)
    requires
        s.phase == ScanPhase::Walking,
    ensures
        walked(s, dirs, read) == (StateView {
            files: walked(s, dirs, read).files,
            completed_dirs: s.completed_dirs.union(dirs.to_set()),
            ..s
        }),
        walked(s, dirs, read).files.to_multiset() == s.files.to_multiset().add(
            files_in(fresh(s.completed_dirs, dirs), read),
        ),
    decreases dirs.len(),
{
    broadcast use vstd::multiset::group_multiset_axioms;

    if dirs.len() == 0 {
        assert(s.completed_dirs.union(dirs.to_set()) =~= s.completed_dirs);
        assert(s.files.to_multiset() =~= s.files.to_multiset().add(Multiset::empty()));
    } else {
        let front = dirs.drop_last();
        let last = dirs.last();
        let before = walked(s, front, read);
        let after = walked(s, dirs, read);
        lemma_walked(s, front, read);
        assert(dirs =~= front.push(last));
        assert(before.completed_dirs.insert(last) =~= s.completed_dirs.union(dirs.to_set())) by {
            assert forall|d: Seq<Step>| #[trigger] dirs.contains(d) <==> front.contains(d) || d
                == last by {
                assert(dirs[dirs.len() - 1] == last);
                if dirs.contains(d) && d != last {
                    let i = choose|i: int| 0 <= i < dirs.len() && dirs[i] == d;
                    assert(front[i] == d);
                }
                if front.contains(d) {
                    let i = choose|i: int| 0 <= i < front.len() && front[i] == d;
                    assert(dirs[i] == d);
                }
            }
        }
        let all = fresh(s.completed_dirs, dirs);
        if before.completed_dirs.contains(last) {
            assert(before.completed_dirs.insert(last) =~= before.completed_dirs);
            assert(all == fresh(s.completed_dirs, front));
        } else {
            let more = found_in(read(last));
            assert(all == fresh(s.completed_dirs, front).push(last));
            assert(all.drop_last() =~= fresh(s.completed_dirs, front));
            assert(after.files =~= before.files + more);
            vstd::seq_lib::lemma_multiset_commutative(before.files, more);
            assert(after.files.to_multiset() =~= s.files.to_multiset().add(files_in(all, read)));
        }
    }
}

proof fn lemma_walked_on(
    s: StateView,
    part: Seq<Seq<Step>>,
    again: Seq<Seq<Step>>,
    read: spec_fn(Seq<Step>) -> Option<Seq<DirItem>>,
)
    ensures
        walked(walked(s, part, read), again, read) == walked(s, part + again, read),
    decreases again.len(),
{
    let all = part + again;
    if again.len() == 0 {
        assert(all =~= part);
    } else {
        assert(all.drop_last() =~= part + again.drop_last());
        assert(all.last() == again.last());
        lemma_walked_on(s, part, again.drop_last(), read);
    }
}

/// Walks through the same directories find the same files, in whatever order and however often the
/// directories are read; only the order of the files may differ.
pub proof fn walks_find_the_same_files(
    s: StateView,
    a: Seq<Seq<Step>>,
    b: Seq<Seq<Step>>,
    read: spec_fn(Seq<Step>) -> Option<Seq<DirItem>>,
)
    requires
        s.phase == ScanPhase::Walking,
        a.to_set() == b.to_set(),
    ensures
        walked(s, a, read).files.to_multiset() == walked(s, b, read).files.to_multiset(),
        walked(s, b, read) == (StateView {
            files: walked(s, b, read).files,
            ..walked(s, a, read)
        }),
{
    lemma_walked(s, a, read);
    lemma_walked(s, b, read);
    lemma_fresh(s.completed_dirs, a);
    lemma_fresh(s.completed_dirs, b);
    let fa = fresh(s.completed_dirs, a);
    let fb = fresh(s.completed_dirs, b);
    assert forall|d: Seq<Step>| #[trigger] fa.contains(d) <==> fb.contains(d) by {
        assert(a.to_set().contains(d) <==> a.contains(d));
        assert(b.to_set().contains(d) <==> b.contains(d));
        assert(fb.contains(d) <==> b.contains(d) && !s.completed_dirs.contains(d));
    }
    lemma_same_dirs(fa, fb, read);
}

/// What is found in a directory: each thing once, and each in that directory.
pub open spec fn is_listing_of(dir: Seq<Step>, items: Option<Seq<DirItem>>) -> bool {
    match items {
        Some(v) => {
            &&& forall|i: int|
                0 <= i < v.len() ==> path_parent((#[trigger] v[i]).path@) == Some(dir)
            &&& forall|i: int, j: int|
                0 <= i < j < v.len() ==> (#[trigger] v[i]).path@ != (#[trigger] v[j]).path@
        },
        None => true,
    }
}

/// Every directory is read as one.
pub open spec fn lists_dirs(read: spec_fn(Seq<Step>) -> Option<Seq<DirItem>>) -> bool {
    forall|dir: Seq<Step>| is_listing_of(dir, #[trigger] read(dir))
}

/// Every file that was found lies in a directory that was read, and none was found twice.
pub open spec fn files_lie_in_dirs(s: StateView) -> bool {
    &&& paths_differ(s.files)
    &&& forall|i: int|
        0 <= i < s.files.len() ==> path_parent((#[trigger] s.files[i]).path) is Some
            && s.completed_dirs.contains(path_parent(s.files[i].path)->0)
}

proof fn lemma_found_in(dir: Seq<Step>, items: Option<Seq<DirItem>>)
    requires
        is_listing_of(dir, items),
    ensures
        paths_differ(found_in(items)),
        forall|i: int|
            0 <= i < found_in(items).len() ==> path_parent(
                (#[trigger] found_in(items)[i]).path,
            ) == Some(dir),
{
    if let Some(v) = items {
        let p = |i: DirItem| is_compared(i);
        let f = |i: DirItem| i.path@;
        let kept = v.filter(p);
        lemma_filter_distinct(v, p, f);
        let found = found_in(items);
        let paths = kept.map_values(f);
        assert forall|i: int, j: int| 0 <= i < j < found.len() implies (#[trigger] found[i]).path
            != (#[trigger] found[j]).path by {
            assert(paths[i] == found[i].path && paths[j] == found[j].path);
        }
        assert forall|i: int| 0 <= i < found.len() implies path_parent(
            (#[trigger] found[i]).path,
        ) == Some(dir) by {
            lemma_filter_part(v, p, i);
            let k = choose|k: int| 0 <= k < v.len() && v[k] == kept[i];
            assert(path_parent(v[k].path@) == Some(dir));
        }
    }
}

/// A walk finds no file twice, where every directory lists what lies in it, each thing once.
pub proof fn walks_find_each_file_once(
    s: StateView,
    dirs: Seq<Seq<Step>>,
    read: spec_fn(Seq<Step>) -> Option<Seq<DirItem>>,
)
    requires
        s.phase == ScanPhase::Walking,
        files_lie_in_dirs(s),
        lists_dirs(read),
    ensures
        files_lie_in_dirs(walked(s, dirs, read)),
        paths_differ(walked(s, dirs, read).files),
    decreases dirs.len(),
{
    if dirs.len() > 0 {
        let before = walked(s, dirs.drop_last(), read);
        let after = walked(s, dirs, read);
        let dir = dirs.last();
        let more = found_in(read(dir));
        walks_find_each_file_once(s, dirs.drop_last(), read);
        lemma_walked(s, dirs.drop_last(), read);
        if !before.completed_dirs.contains(dir) {
            lemma_found_in(dir, read(dir));
            assert(after.files =~= before.files + more);
            assert forall|i: int, j: int| 0 <= i < j < after.files.len() implies (
            #[trigger] after.files[i]).path != (#[trigger] after.files[j]).path by {
                let n = before.files.len();
                if j < n {
                    assert(after.files[i] == before.files[i] && after.files[j] == before.files[j]);
                } else if i >= n {
                    assert(after.files[i] == more[i - n] && after.files[j] == more[j - n]);
                } else {
                    assert(after.files[i] == before.files[i] && after.files[j] == more[j - n]);
                }
            }
            assert forall|i: int| 0 <= i < after.files.len() implies path_parent(
                (#[trigger] after.files[i]).path,
            ) is Some && after.completed_dirs.contains(path_parent(after.files[i].path)->0) by {
                let n = before.files.len();
                if i < n {
                    assert(after.files[i] == before.files[i]);
                } else {
                    assert(after.files[i] == more[i - n]);
                }
            }
        }
    }
}

// ---------------------------------------------------------------------------
// The same files in another order
// ---------------------------------------------------------------------------

/// The groups as sets of files.
pub open spec fn group_sets(groups: Seq<Seq<FileView>>) -> Seq<Set<FileView>> {
    groups.map_values(|g: Seq<FileView>| g.to_set())
}

/// The same sets of files are grouped, and there are as many groups.
pub open spec fn same_groups(a: Seq<Seq<FileView>>, b: Seq<Seq<FileView>>) -> bool {
    a.len() == b.len() && group_sets(a).to_set() == group_sets(b).to_set()
}

/// The files that belong in one group with `e`: those that come as far as the last comparison and
/// match it there.
pub open spec fn peers(files: Seq<EntryView>, r: Reading, e: EntryView) -> Set<FileView> {
    Set::new(
        |f: FileView|
            is_candidate(files, r, entry_in(f)) && matched(e, entry_in(f), r) && f == info_of(
                entry_in(f),
                (r.check)(entry_in(f)),
            ),
    )
}

/// A group holds the files that belong together with any one of it.
pub proof fn groups_hold_peers(files: Seq<EntryView>, r: Reading, m: int, i: int)
    requires
        paths_differ(files),
        0 <= m < duplicates(files, r).len(),
        0 <= i < duplicates(files, r)[m].len(),
    ensures
        duplicates(files, r)[m].to_set() == peers(files, r, entry_in(duplicates(files, r)[m][i])),
{
    let found = duplicates(files, r);
    let group = found[m];
    let e = entry_in(group[i]);
    duplicates_are_genuine(files, r, m);
    found_files_are_candidates(files, r, m, i);
    assert(was_found(group[i], files, r));
    assert forall|f: FileView| #[trigger] group.contains(f) implies peers(files, r, e).contains(
        f,
    ) by {
        let j = choose|j: int| 0 <= j < group.len() && group[j] == f;
        found_files_are_candidates(files, r, m, j);
        assert(was_found(group[j], files, r));
        assert(matched(entry_in(group[i]), entry_in(group[j]), r));
    }
    assert forall|f: FileView| #[trigger] peers(files, r, e).contains(f) implies group.contains(
        f,
    ) by {
        let b = entry_in(f);
        if b.path == e.path {
            let p = choose|p: int| 0 <= p < files.len() && files[p] == e;
            let q = choose|q: int| 0 <= q < files.len() && files[q] == b;
            assert(p == q) by {
                if p < q {
                    assert(files[p].path != files[q].path);
                } else if q < p {
                    assert(files[q].path != files[p].path);
                }
            }
            assert(group[i] == f);
        } else {
            matching_candidates_are_found(files, r, e, b);
            let n = choose|n: int| 0 <= n < found.len() && holds_both(#[trigger] found[n], e, b, r);
            let j = choose|j: int| 0 <= j < found[n].len() && found[n][j] == group[i];
            no_file_is_found_twice(files, r, m, i, n, j);
        }
    }
    assert(group.to_set() =~= peers(files, r, e));
}

proof fn lemma_permuted(a: Seq<EntryView>, b: Seq<EntryView>)
    requires
        a.to_multiset() == b.to_multiset(),
        paths_differ(a),
    ensures
        paths_differ(b),
        forall|e: EntryView| #[trigger] a.contains(e) <==> b.contains(e),
{
    broadcast use vstd::multiset::group_multiset_axioms;
    broadcast use vstd::seq_lib::group_to_multiset_ensures;

    assert forall|e: EntryView| #[trigger] a.contains(e) <==> b.contains(e) by {
        assert(a.contains(e) <==> a.to_multiset().count(e) > 0);
        assert(b.contains(e) <==> b.to_multiset().count(e) > 0);
    }
    assert(a.no_duplicates());
    a.lemma_multiset_has_no_duplicates();
    b.lemma_multiset_has_no_duplicates_conv();
    assert forall|i: int, j: int| 0 <= i < j < b.len() implies (#[trigger] b[i]).path != (
    #[trigger] b[j]).path by {
        assert(b.contains(b[i]) && b.contains(b[j]));
        assert(a.contains(b[i]) && a.contains(b[j]));
        let p = choose|p: int| 0 <= p < a.len() && a[p] == b[i];
        let q = choose|q: int| 0 <= q < a.len() && a[q] == b[j];
        assert(b[i] != b[j]);
        if p < q {
            assert(a[p].path != a[q].path);
        } else {
            assert(a[q].path != a[p].path);
        }
    }
}

proof fn lemma_same_candidates(a: Seq<EntryView>, b: Seq<EntryView>, r: Reading, e: EntryView)
    requires
        forall|e: EntryView| #[trigger] a.contains(e) <==> b.contains(e),
        is_candidate(a, r, e),
    ensures
        is_candidate(b, r, e),
{
    let f = choose|f: EntryView| shares_start(a, r, e, f);
    assert(shares_start(b, r, e, f));
}

proof fn lemma_group_is_found(a: Seq<EntryView>, b: Seq<EntryView>, r: Reading, m: int) -> (n: int)
    requires
        paths_differ(a),
        paths_differ(b),
        forall|e: EntryView| #[trigger] a.contains(e) <==> b.contains(e),
        0 <= m < duplicates(a, r).len(),
    ensures
        0 <= n < duplicates(b, r).len(),
        duplicates(a, r)[m].to_set() == duplicates(b, r)[n].to_set(),
{
    let group = duplicates(a, r)[m];
    let found = duplicates(b, r);
    duplicates_are_genuine(a, r, m);
    let x = entry_in(group[0]);
    let y = entry_in(group[1]);
    assert(x.path != y.path) by {
        if x.path == y.path {
            no_file_is_found_twice(a, r, m, 0, m, 1);
        }
    }
    assert(was_found(group[0], a, r) && was_found(group[1], a, r));
    assert(matched(x, y, r));
    found_files_are_candidates(a, r, m, 0);
    found_files_are_candidates(a, r, m, 1);
    lemma_same_candidates(a, b, r, x);
    lemma_same_candidates(a, b, r, y);
    matching_candidates_are_found(b, r, x, y);
    let n = choose|n: int| 0 <= n < found.len() && holds_both(#[trigger] found[n], x, y, r);
    let j = choose|j: int| 0 <= j < found[n].len() && found[n][j] == group[0];
    groups_hold_peers(a, r, m, 0);
    groups_hold_peers(b, r, n, j);
    assert(peers(a, r, x) =~= peers(b, r, x)) by {
        assert forall|f: FileView| #[trigger] peers(a, r, x).contains(f) <==> peers(
            b,
            r,
            x,
        ).contains(f) by {
            if is_candidate(a, r, entry_in(f)) {
                lemma_same_candidates(a, b, r, entry_in(f));
            }
            if is_candidate(b, r, entry_in(f)) {
                assert forall|e: EntryView| #[trigger] b.contains(e) <==> a.contains(e) by {}
                lemma_same_candidates(b, a, r, entry_in(f));
            }
        }
    }
    n
}

proof fn lemma_group_sets_differ(files: Seq<EntryView>, r: Reading)
    requires
        paths_differ(files),
    ensures
        group_sets(duplicates(files, r)).no_duplicates(),
{
    let found = duplicates(files, r);
    let sets = group_sets(found);
    assert forall|m: int, n: int| 0 <= m < sets.len() && 0 <= n < sets.len() && m != n implies
        sets[m] != sets[n] by {
        if sets[m] == sets[n] {
            duplicates_are_genuine(files, r, m);
            let f = found[m][0];
            assert(found[m].to_set().contains(f));
            assert(found[n].to_set().contains(f));
            let j = choose|j: int| 0 <= j < found[n].len() && found[n][j] == f;
            no_file_is_found_twice(files, r, m, 0, n, j);
        }
    }
}

/// The same files in another order have the same duplicates.
pub proof fn order_of_files_does_not_matter(a: Seq<EntryView>, b: Seq<EntryView>, r: Reading)
    requires
        a.to_multiset() == b.to_multiset(),
        paths_differ(a),
    ensures
        same_groups(duplicates(a, r), duplicates(b, r)),
{
    lemma_permuted(a, b);
    let ga = duplicates(a, r);
    let gb = duplicates(b, r);
    let sa = group_sets(ga);
    let sb = group_sets(gb);
    assert forall|s: Set<FileView>| #[trigger] sa.to_set().contains(s) <==> sb.to_set().contains(
        s,
    ) by {
        if sa.contains(s) {
            let m = choose|m: int| 0 <= m < sa.len() && sa[m] == s;
            let n = lemma_group_is_found(a, b, r, m);
            assert(sb[n] == s);
        }
        if sb.contains(s) {
            let n = choose|n: int| 0 <= n < sb.len() && sb[n] == s;
            assert forall|e: EntryView| #[trigger] b.contains(e) <==> a.contains(e) by {}
            let m = lemma_group_is_found(b, a, r, n);
            assert(sa[m] == s);
        }
    }
    assert(sa.to_set() =~= sb.to_set());
    lemma_group_sets_differ(a, r);
    lemma_group_sets_differ(b, r);
    sa.unique_seq_to_set();
    sb.unique_seq_to_set();
}

// ---------------------------------------------------------------------------
// Taking up a scan
// ---------------------------------------------------------------------------

/// What a scan finishes with that is told all that it needs from here on.
pub open spec fn outcome(s: StateView, fast: Option<u32>, r: Reading) -> ActionView {
    let last = answered(answered(answered(s, r), r), r);
    action_after(last, answer(last, r), fast)
}

/// Two scans finish, and with the same groups.
pub open spec fn same_outcome(a: ActionView, b: ActionView) -> bool {
    match (a, b) {
        (ActionView::Finished(g), ActionView::Finished(h)) => same_groups(g, h),
        _ => false,
    }
}

/// Scans that have found the same files finish with the same groups, however far each has come.
pub proof fn scans_of_the_same_files_agree(
    s: StateView,
    t: StateView,
    fast: Option<u32>,
    r: Reading,
)
    requires
        agrees(s, r),
        agrees(t, r),
        s.files.to_multiset() == t.files.to_multiset(),
        paths_differ(s.files),
    ensures
        same_outcome(outcome(s, fast, r), outcome(t, fast, r)),
{
    interrupted_scans_are_resumed(s, fast, r);
    interrupted_scans_are_resumed(t, fast, r);
    order_of_files_does_not_matter(s.files, t.files, r);
}

/// The state after some events.
pub open spec fn after_all(s: StateView, events: Seq<EventView>) -> StateView
    decreases events.len(),
{
    if events.len() == 0 {
        s
    } else {
        state_after(after_all(s, events.drop_last()), events.last())
    }
}

/// Each of some events tells of the files what reading them says.
pub open spec fn all_truthful(s: StateView, events: Seq<EventView>, r: Reading) -> bool
    decreases events.len(),
{
    events.len() == 0 || {
        all_truthful(s, events.drop_last(), r) && truthful(
            after_all(s, events.drop_last()),
            events.last(),
            r,
        )
    }
}

proof fn lemma_after_all(s: StateView, events: Seq<EventView>, r: Reading)
    requires
        s.phase != ScanPhase::Walking,
        agrees(s, r),
        all_truthful(s, events, r),
    ensures
        after_all(s, events).phase != ScanPhase::Walking,
        after_all(s, events).files == s.files,
        agrees(after_all(s, events), r),
    decreases events.len(),
{
    if events.len() > 0 {
        let before = after_all(s, events.drop_last());
        lemma_after_all(s, events.drop_last(), r);
        every_step_agrees(before, events.last(), r);
        files_stay_after_the_walk(before, events.last());
    }
}

/// Resuming gives what a fresh scan gives: wherever a scan is interrupted after the walk, whatever
/// it was told until then, it finishes with the same groups as if it had not been.
pub proof fn interruption_does_not_matter(
    s: StateView,
    events: Seq<EventView>,
    fast: Option<u32>,
    r: Reading,
)
    requires
        s.phase != ScanPhase::Walking,
        agrees(s, r),
        all_truthful(s, events, r),
        paths_differ(s.files),
    ensures
        same_outcome(outcome(s, fast, r), outcome(after_all(s, events), fast, r)),
{
    lemma_after_all(s, events, r);
    scans_of_the_same_files_agree(s, after_all(s, events), fast, r);
}

/// A scan that has not begun is one that can be interrupted and taken up again.
pub proof fn fresh_states_agree(root: PathView, r: Reading)
    ensures
        fresh_state(root).phase == ScanPhase::Walking,
        agrees(fresh_state(root), r),
        files_lie_in_dirs(fresh_state(root)),
{
}

/// Resuming gives what a fresh scan gives. A scan that is interrupted in its walk, after the
/// directories in `part`, taken up again with those in `again`, and perhaps interrupted again after
/// whatever it was told in `events`, finishes with the same groups as one that walks through all
/// directories in one go. Every directory lists what lies in it, each thing once.
pub proof fn resuming_gives_what_a_fresh_scan_gives(
    s: StateView,
    dirs: Seq<Seq<Step>>,
    part: Seq<Seq<Step>>,
    again: Seq<Seq<Step>>,
    read: spec_fn(Seq<Step>) -> Option<Seq<DirItem>>,
    events: Seq<EventView>,
    fast: Option<u32>,
    r: Reading,
)
    requires
        s.phase == ScanPhase::Walking,
        agrees(s, r),
        files_lie_in_dirs(s),
        lists_dirs(read),
        (part + again).to_set() == dirs.to_set(),
        all_truthful(
            state_after(walked(walked(s, part, read), again, read), EventView::WalkDone),
            events,
            r,
        ),
    ensures
        ({
            let fresh = outcome(walked(s, dirs, read), fast, r);
            let resumed = walked(walked(s, part, read), again, read);
            let hashing = after_all(state_after(resumed, EventView::WalkDone), events);
            &&& same_outcome(fresh, outcome(resumed, fast, r))
            &&& same_outcome(fresh, outcome(hashing, fast, r))
        }),
{
    let whole = walked(s, dirs, read);
    let resumed = walked(s, part + again, read);
    let started = state_after(resumed, EventView::WalkDone);
    lemma_walked(s, dirs, read);
    lemma_walked(s, part + again, read);
    lemma_walked_on(s, part, again, read);
    walks_find_each_file_once(s, dirs, read);
    walks_find_the_same_files(s, dirs, part + again, read);
    scans_of_the_same_files_agree(whole, resumed, fast, r);
    every_step_agrees(resumed, EventView::WalkDone, r);
    lemma_after_all(started, events, r);
    scans_of_the_same_files_agree(whole, after_all(started, events), fast, r);
}

} // verus!
