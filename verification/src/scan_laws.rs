//! What a scan finds, from its first step to its last.
use vstd::prelude::*;

use crate::grouping::{
    classes_hold_what_is_shared, classes_of, classes_part_the_positions, classes_share_a_key,
    in_class, is_shared, lemma_filter_upto, lemma_members_in_range, upto,
};
use crate::hash::{
    content_head, content_tail, ends_of, short_files_are_hashed_whole, xxh3_64_of, xxh3_digest_of,
    PARTIAL_HASH_SIZE,
};
use crate::path::Step;
use crate::record::FileView;
use crate::scanner::{
    action_after, candidate_groups, check_keys, checks_of, compared, confirmed, confirmed_upto,
    dir_recorded, entry_of, found_groups, hashed, info_of, is_compared, picked, readable, remaining,
    result_entries, result_keys, same_hashed, same_sized, size_keys, state_after, taken, ActionView,
    DirItem, EntryView, EventView, FileCheck, HashedView, ScanPhase, StateView,
};

verus! {

// ---------------------------------------------------------------------------
// What reading the files says
// ---------------------------------------------------------------------------

/// What reading a file says, the same each time: the hash of its start, the hash of its ends, and
/// the last finding on it.
pub struct Reading {
    pub head: spec_fn(EntryView) -> Option<u64>,
    pub ends: spec_fn(EntryView) -> Option<u64>,
    pub check: spec_fn(EntryView) -> FileCheck,
}

/// Files with the hashes of their starts, of those that share their size.
pub open spec fn heads_of(files: Seq<EntryView>, r: Reading) -> Seq<HashedView> {
    hashed(same_sized(files), same_sized(files).map_values(r.head))
}

/// Files with the hashes of their ends, of those that share their size and the first hash.
pub open spec fn ends_of_files(files: Seq<EntryView>, r: Reading) -> Seq<HashedView> {
    let candidates = same_hashed(heads_of(files, r));
    hashed(candidates, candidates.map_values(r.ends))
}

/// The findings on groups of files.
pub open spec fn findings(groups: Seq<Seq<EntryView>>, r: Reading) -> Seq<Seq<FileCheck>> {
    groups.map_values(|g: Seq<EntryView>| g.map_values(r.check))
}

/// The duplicates among some files.
pub open spec fn duplicates(files: Seq<EntryView>, r: Reading) -> Seq<Seq<FileView>> {
    let results = ends_of_files(files, r);
    found_groups(results, findings(candidate_groups(results), r))
}

/// A state holds what reading the files says, as far as the scan has come.
pub open spec fn agrees(s: StateView, r: Reading) -> bool {
    match s.phase {
        ScanPhase::Walking => {
            &&& s.head_results.len() == 0
            &&& s.head_idx == 0
            &&& s.partial_results.len() == 0
            &&& s.partial_idx == 0
        },
        ScanPhase::HeadHashing => {
            &&& s.head_candidates == same_sized(s.files)
            &&& 0 <= s.head_idx <= s.head_candidates.len()
            &&& s.head_results == hashed(
                s.head_candidates.take(s.head_idx),
                s.head_candidates.map_values(r.head),
            )
            &&& s.partial_results.len() == 0
            &&& s.partial_idx == 0
        },
        ScanPhase::PartialHashing => {
            &&& s.partial_candidates == same_hashed(heads_of(s.files, r))
            &&& 0 <= s.partial_idx <= s.partial_candidates.len()
            &&& s.partial_results == hashed(
                s.partial_candidates.take(s.partial_idx),
                s.partial_candidates.map_values(r.ends),
            )
        },
        _ => s.partial_results == ends_of_files(s.files, r),
    }
}

/// An event tells of the files what reading them says.
pub open spec fn truthful(s: StateView, event: EventView, r: Reading) -> bool {
    match event {
        EventView::Heads(hashes) => {
            let rest = remaining(s.head_candidates, s.head_idx);
            forall|k: int|
                0 <= k < hashes.len() && k < rest.len() ==> #[trigger] hashes[k] == (r.head)(rest[k])
        },
        EventView::Ends(hashes) => {
            let rest = remaining(s.partial_candidates, s.partial_idx);
            forall|k: int|
                0 <= k < hashes.len() && k < rest.len() ==> #[trigger] hashes[k] == (r.ends)(rest[k])
        },
        EventView::Verified(answers) => answers == findings(
            candidate_groups(s.partial_results),
            r,
        ),
        _ => true,
    }
}

proof fn lemma_hashed_same(entries: Seq<EntryView>, a: Seq<Option<u64>>, b: Seq<Option<u64>>)
    requires
        forall|i: int| 0 <= i < entries.len() ==> #[trigger] a[i] == b[i],
    ensures
        hashed(entries, a) == hashed(entries, b),
    decreases entries.len(),
{
    if entries.len() > 0 {
        lemma_hashed_same(entries.drop_last(), a, b);
        assert(a[entries.len() - 1] == b[entries.len() - 1]);
    }
}

/// Hashes that are taken down in two parts make one list.
proof fn lemma_hashed_joins(
    candidates: Seq<EntryView>,
    idx: int,
    n: int,
    hashes: Seq<Option<u64>>,
    f: spec_fn(EntryView) -> Option<u64>,
)
    requires
        0 <= idx <= candidates.len(),
        0 <= n <= candidates.len() - idx,
        n <= hashes.len(),
        forall|k: int| 0 <= k < n ==> #[trigger] hashes[k] == f(candidates.skip(idx)[k]),
    ensures
        hashed(candidates.take(idx), candidates.map_values(f)) + hashed(
            candidates.skip(idx).take(n),
            hashes,
        ) == hashed(candidates.take(idx + n), candidates.map_values(f)),
    decreases n,
{
    let all = candidates.map_values(f);
    let rest = candidates.skip(idx);
    let first = hashed(candidates.take(idx), all);
    if n == 0 {
        assert(first + hashed(rest.take(0), hashes) =~= first);
    } else {
        lemma_hashed_joins(candidates, idx, n - 1, hashes, f);
        assert(rest.take(n).drop_last() =~= rest.take(n - 1));
        assert(candidates.take(idx + n).drop_last() =~= candidates.take(idx + n - 1));
        assert(hashes[n - 1] == all[idx + n - 1]);
        assert(first + hashed(rest.take(n), hashes) =~= hashed(candidates.take(idx + n), all));
    }
}

/// A scan that is told what reading the files says holds just that after every step.
pub proof fn every_step_agrees(s: StateView, event: EventView, r: Reading)
    requires
        agrees(s, r),
        truthful(s, event, r),
    ensures
        agrees(state_after(s, event), r),
{
    match event {
        EventView::WalkDone => {
            if s.phase == ScanPhase::Walking {
                let c = same_sized(s.files);
                assert(s.head_results =~= hashed(c.take(0), c.map_values(r.head)));
            }
        },
        EventView::Heads(hashes) => {
            if s.phase == ScanPhase::HeadHashing {
                let c = s.head_candidates;
                let n = taken(s.head_idx, c.len() as int, hashes.len() as int);
                let rest = remaining(c, s.head_idx);
                assert forall|k: int| 0 <= k < n implies #[trigger] hashes[k] == (r.head)(
                    c.skip(s.head_idx)[k],
                ) by {
                    assert(hashes[k] == (r.head)(rest[k]));
                }
                lemma_hashed_joins(c, s.head_idx, n, hashes, r.head);
                if s.head_idx + n >= c.len() {
                    assert(c.take(c.len() as int) =~= c);
                    let p = same_hashed(heads_of(s.files, r));
                    assert(s.partial_results =~= hashed(p.take(0), p.map_values(r.ends)));
                }
            }
        },
        EventView::Ends(hashes) => {
            if s.phase == ScanPhase::PartialHashing {
                let c = s.partial_candidates;
                let n = taken(s.partial_idx, c.len() as int, hashes.len() as int);
                let rest = remaining(c, s.partial_idx);
                assert forall|k: int| 0 <= k < n implies #[trigger] hashes[k] == (r.ends)(
                    c.skip(s.partial_idx)[k],
                ) by {
                    assert(hashes[k] == (r.ends)(rest[k]));
                }
                lemma_hashed_joins(c, s.partial_idx, n, hashes, r.ends);
                if s.partial_idx + n >= c.len() {
                    assert(c.take(c.len() as int) =~= c);
                }
            }
        },
        _ => {},
    }
}

/// A scan that is told what reading the files says finishes with the duplicates among the files
/// that it found, also when it is taken up again after its end.
pub proof fn scan_finishes_with_duplicates(
    s: StateView,
    answers: Seq<Seq<FileCheck>>,
    fast: Option<u32>,
    r: Reading,
)
    requires
        agrees(s, r),
        s.phase == ScanPhase::FullHashing || s.phase == ScanPhase::Done,
        truthful(s, EventView::Verified(answers), r),
    ensures
        action_after(s, EventView::Verified(answers), fast) == ActionView::Finished(
            duplicates(s.files, r),
        ),
        state_after(s, EventView::Verified(answers)).phase == ScanPhase::Done,
        state_after(s, EventView::Verified(answers)).partial_results == s.partial_results,
{
}

/// After the walk no step changes which files were found.
pub proof fn files_stay_after_the_walk(s: StateView, event: EventView)
    requires
        s.phase != ScanPhase::Walking,
    ensures
        state_after(s, event).files == s.files,
        state_after(s, event).completed_dirs == s.completed_dirs,
{
}

/// The event that tells all that a scan in that state needs.
pub open spec fn answer(s: StateView, r: Reading) -> EventView {
    match s.phase {
        ScanPhase::Walking => EventView::WalkDone,
        ScanPhase::HeadHashing => EventView::Heads(
            remaining(s.head_candidates, s.head_idx).map_values(r.head),
        ),
        ScanPhase::PartialHashing => EventView::Ends(
            remaining(s.partial_candidates, s.partial_idx).map_values(r.ends),
        ),
        _ => EventView::Verified(findings(candidate_groups(s.partial_results), r)),
    }
}

/// The state of a scan once it is told all that it needs.
pub open spec fn answered(s: StateView, r: Reading) -> StateView {
    state_after(s, answer(s, r))
}

/// A scan can be taken up again wherever it was interrupted: once the files are found, four answers
/// lead to the duplicates among them, whatever was hashed before.
pub proof fn interrupted_scans_are_resumed(s: StateView, fast: Option<u32>, r: Reading)
    requires
        agrees(s, r),
    ensures
        ({
            let last = answered(answered(answered(s, r), r), r);
            action_after(last, answer(last, r), fast) == ActionView::Finished(
                duplicates(s.files, r),
            )
        }),
{
    let one = answered(s, r);
    let two = answered(one, r);
    let three = answered(two, r);
    every_step_agrees(s, answer(s, r), r);
    every_step_agrees(one, answer(one, r), r);
    every_step_agrees(two, answer(two, r), r);
    assert(three.files == s.files);
    scan_finishes_with_duplicates(
        three,
        findings(candidate_groups(three.partial_results), r),
        fast,
        r,
    );
}

/// A directory counts once, however often it is read.
pub proof fn directories_count_once(
    s: StateView,
    dir: Seq<Step>,
    items: Option<Seq<DirItem>>,
    again: Option<Seq<DirItem>>,
)
    ensures
        dir_recorded(dir_recorded(s, dir, items), dir, again) == dir_recorded(s, dir, items),
{
}

/// Every file that is found is not empty.
pub open spec fn no_empty_files(files: Seq<EntryView>) -> bool {
    forall|i: int| 0 <= i < files.len() ==> (#[trigger] files[i]).size > 0
}

/// Empty files are ignored: no step adds one.
pub proof fn empty_files_are_ignored(s: StateView, event: EventView)
    requires
        no_empty_files(s.files),
    ensures
        no_empty_files(state_after(s, event).files),
{
    if let EventView::DirRead { dir, items } = event {
        if let Some(v) = items {
            let p = |i: DirItem| is_compared(i);
            let more = compared(v);
            assert forall|k: int| 0 <= k < more.len() implies (#[trigger] more[k]).size > 0 by {
                v.lemma_filter_pred(p, k);
            }
            let all = s.files + more;
            assert forall|k: int| 0 <= k < all.len() implies (#[trigger] all[k]).size > 0 by {
                if k < s.files.len() {
                    assert(all[k] == s.files[k]);
                } else {
                    assert(all[k] == more[k - s.files.len()]);
                }
            }
        }
    }
}

// ---------------------------------------------------------------------------
// From the files to the groups
// ---------------------------------------------------------------------------

/// No path stands twice.
pub open spec fn paths_differ(entries: Seq<EntryView>) -> bool {
    forall|i: int, j: int|
        0 <= i < j < entries.len() ==> (#[trigger] entries[i]).path != (#[trigger] entries[j]).path
}

proof fn lemma_picked(entries: Seq<EntryView>, keys: Seq<(u64, u64)>)
    requires
        entries.len() == keys.len(),
    ensures
        forall|k: int|
            0 <= k < picked(entries, keys).len() ==> entries.contains(
                #[trigger] picked(entries, keys)[k],
            ),
        forall|i: int|
            0 <= i < entries.len() && is_shared(keys, i) ==> picked(entries, keys).contains(
                #[trigger] entries[i],
            ),
        paths_differ(entries) ==> paths_differ(picked(entries, keys)),
{
    let p = |i: int| is_shared(keys, i);
    let at = upto(keys.len()).filter(p);
    let all = picked(entries, keys);
    lemma_filter_upto(keys.len(), p);
    assert forall|k: int| 0 <= k < all.len() implies entries.contains(#[trigger] all[k]) by {
        assert(0 <= at[k] < keys.len());
        assert(all[k] == entries[at[k]]);
    }
    assert forall|i: int| 0 <= i < entries.len() && is_shared(keys, i) implies all.contains(
        #[trigger] entries[i],
    ) by {
        assert(p(i));
        assert(at.contains(i));
        let k = choose|k: int| 0 <= k < at.len() && at[k] == i;
        assert(all[k] == entries[i]);
    }
    if paths_differ(entries) {
        assert forall|a: int, b: int| 0 <= a < b < all.len() implies (#[trigger] all[a]).path != (
        #[trigger] all[b]).path by {
            assert(at[a] < at[b]);
            assert(0 <= at[a] && at[b] < keys.len());
            assert(all[a] == entries[at[a]]);
            assert(all[b] == entries[at[b]]);
        }
    }
}

/// A hashed file is one of the entries, with its hash.
pub open spec fn is_hashed(
    entries: Seq<EntryView>,
    hashes: Seq<Option<u64>>,
    h: HashedView,
    i: int,
) -> bool {
    0 <= i < entries.len() && entry_of(h) == entries[i] && hashes[i] == Some(h.hash)
}

spec fn was_hashed(entries: Seq<EntryView>, hashes: Seq<Option<u64>>, h: HashedView) -> bool {
    exists|i: int| is_hashed(entries, hashes, h, i)
}

proof fn lemma_hashed(entries: Seq<EntryView>, hashes: Seq<Option<u64>>)
    ensures
        forall|k: int|
            0 <= k < hashed(entries, hashes).len() ==> was_hashed(
                entries,
                hashes,
                #[trigger] hashed(entries, hashes)[k],
            ),
        forall|i: int|
            0 <= i < entries.len() && hashes[i] is Some ==> hashed(entries, hashes).contains(
                HashedView {
                    path: (#[trigger] entries[i]).path,
                    written: entries[i].written,
                    size: entries[i].size,
                    hash: hashes[i]->0,
                },
            ),
        paths_differ(entries) ==> paths_differ(result_entries(hashed(entries, hashes))),
    decreases entries.len(),
{
    if entries.len() > 0 {
        let front = entries.drop_last();
        let last = entries.last();
        let before = hashed(front, hashes);
        let all = hashed(entries, hashes);
        lemma_hashed(front, hashes);
        assert forall|k: int| 0 <= k < all.len() implies was_hashed(
            entries,
            hashes,
            #[trigger] all[k],
        ) by {
            if k < before.len() {
                assert(all[k] == before[k]);
                assert(was_hashed(front, hashes, before[k]));
                let i = choose|i: int| is_hashed(front, hashes, before[k], i);
                assert(is_hashed(entries, hashes, all[k], i));
            } else {
                assert(is_hashed(entries, hashes, all[k], entries.len() - 1));
            }
        }
        assert forall|i: int| 0 <= i < entries.len() && hashes[i] is Some implies all.contains(
            HashedView {
                path: (#[trigger] entries[i]).path,
                written: entries[i].written,
                size: entries[i].size,
                hash: hashes[i]->0,
            },
        ) by {
            let h = HashedView {
                path: entries[i].path,
                written: entries[i].written,
                size: entries[i].size,
                hash: hashes[i]->0,
            };
            if i < front.len() {
                assert(front[i] == entries[i]);
                assert(before.contains(h));
                let k = choose|k: int| 0 <= k < before.len() && before[k] == h;
                assert(all[k] == h);
            } else {
                assert(all.last() == h);
            }
        }
        if paths_differ(entries) {
            assert(paths_differ(front)) by {
                assert forall|i: int, j: int| 0 <= i < j < front.len() implies (
                #[trigger] front[i]).path != (#[trigger] front[j]).path by {
                    assert(front[i] == entries[i] && front[j] == entries[j]);
                }
            }
            let es = result_entries(all);
            let es0 = result_entries(before);
            assert forall|a: int, b: int| 0 <= a < b < es.len() implies (#[trigger] es[a]).path != (
            #[trigger] es[b]).path by {
                assert(es[a] == es0[a]);
                if b < es0.len() {
                    assert(es[b] == es0[b]);
                } else {
                    assert(es[b].path == last.path);
                    assert(was_hashed(front, hashes, before[a]));
                    let i = choose|i: int| is_hashed(front, hashes, before[a], i);
                    assert(front[i] == entries[i]);
                    assert(entries[i].path != entries[entries.len() - 1].path);
                }
            }
        }
    }
}

/// A hashed file is one of the files, and its hash is what reading it says.
proof fn lemma_stage(c: Seq<EntryView>, f: spec_fn(EntryView) -> Option<u64>)
    ensures
        forall|k: int|
            0 <= k < hashed(c, c.map_values(f)).len() ==> {
                let h = #[trigger] hashed(c, c.map_values(f))[k];
                c.contains(entry_of(h)) && f(entry_of(h)) == Some(h.hash)
            },
        forall|e: EntryView|
            c.contains(e) && f(e) is Some ==> hashed(c, c.map_values(f)).contains(
                HashedView {
                    path: e.path,
                    written: e.written,
                    size: e.size,
                    hash: (#[trigger] f(e))->0,
                },
            ),
        paths_differ(c) ==> paths_differ(result_entries(hashed(c, c.map_values(f)))),
{
    let hs = c.map_values(f);
    let all = hashed(c, hs);
    lemma_hashed(c, hs);
    assert forall|k: int| 0 <= k < all.len() implies {
        let h = #[trigger] all[k];
        c.contains(entry_of(h)) && f(entry_of(h)) == Some(h.hash)
    } by {
        assert(was_hashed(c, hs, all[k]));
        let i = choose|i: int| is_hashed(c, hs, all[k], i);
        assert(c[i] == entry_of(all[k]));
    }
    assert forall|e: EntryView| c.contains(e) && f(e) is Some implies all.contains(
        HashedView { path: e.path, written: e.written, size: e.size, hash: (#[trigger] f(e))->0 },
    ) by {
        let i = choose|i: int| 0 <= i < c.len() && c[i] == e;
        assert(hs[i] == f(e));
        assert(all.contains(
            HashedView { path: c[i].path, written: c[i].written, size: c[i].size, hash: hs[i]->0 },
        ));
    }
}

proof fn lemma_repeated(
    results: Seq<HashedView>,
    a: HashedView,
    b: HashedView,
)
    requires
        results.contains(a),
        results.contains(b),
        a.path != b.path,
        a.size == b.size,
        a.hash == b.hash,
    ensures
        same_hashed(results).contains(entry_of(a)),
{
    let keys = result_keys(results);
    let es = result_entries(results);
    let i = choose|i: int| 0 <= i < results.len() && results[i] == a;
    let j = choose|j: int| 0 <= j < results.len() && results[j] == b;
    assert(keys[i] == keys[j]);
    assert(is_shared(keys, i));
    lemma_picked(es, keys);
    assert(es[i] == entry_of(a));
}

/// Two files that reading does not tell apart: they share their size, their first and second
/// hash, and, where they are longer than their ends, the last one.
pub open spec fn alike(a: EntryView, b: EntryView, r: Reading) -> bool {
    &&& a.size == b.size
    &&& (r.head)(a) == (r.head)(b)
    &&& (r.head)(a) is Some
    &&& (r.ends)(a) == (r.ends)(b)
    &&& (r.ends)(a) is Some
    &&& a.size > 2 * PARTIAL_HASH_SIZE ==> (r.check)(a).hash == (r.check)(b).hash && (r.check)(
        a,
    ).hash is Some
}

/// `f` is another of the files, of the same size and with the same first hash as `e`.
pub open spec fn shares_start(
    files: Seq<EntryView>,
    r: Reading,
    e: EntryView,
    f: EntryView,
) -> bool {
    &&& files.contains(f)
    &&& f.path != e.path
    &&& f.size == e.size
    &&& (r.head)(f) == (r.head)(e)
    &&& (r.head)(e) is Some
}

/// One of the files comes as far as the last comparison: its ends can be read, and it shares its
/// size and first hash with another.
pub open spec fn is_candidate(files: Seq<EntryView>, r: Reading, e: EntryView) -> bool {
    &&& files.contains(e)
    &&& (r.ends)(e) is Some
    &&& exists|f: EntryView| shares_start(files, r, e, f)
}

proof fn lemma_survives(files: Seq<EntryView>, r: Reading, a: EntryView)
    requires
        is_candidate(files, r, a),
    ensures
        ends_of_files(files, r).contains(
            HashedView { path: a.path, written: a.written, size: a.size, hash: (r.ends)(a)->0 },
        ),
{
    let b = choose|b: EntryView| shares_start(files, r, a, b);
    let i = choose|i: int| 0 <= i < files.len() && files[i] == a;
    let j = choose|j: int| 0 <= j < files.len() && files[j] == b;
    let keys = size_keys(files);
    assert(keys[i] == keys[j]);
    assert(is_shared(keys, i));
    assert(keys[j] == keys[i] && is_shared(keys, j));
    lemma_picked(files, keys);
    let c1 = same_sized(files);
    assert(c1.contains(files[i]) && c1.contains(files[j]));
    lemma_stage(c1, r.head);
    let ha = HashedView { path: a.path, written: a.written, size: a.size, hash: (r.head)(a)->0 };
    let hb = HashedView { path: b.path, written: b.written, size: b.size, hash: (r.head)(b)->0 };
    lemma_repeated(heads_of(files, r), ha, hb);
    let c2 = same_hashed(heads_of(files, r));
    assert(entry_of(ha) == a);
    lemma_stage(c2, r.ends);
}

/// A group holds two files, each with what was found out of it.
pub open spec fn holds_both(
    group: Seq<FileView>,
    a: EntryView,
    b: EntryView,
    r: Reading,
) -> bool {
    group.contains(info_of(a, (r.check)(a))) && group.contains(info_of(b, (r.check)(b)))
}

proof fn lemma_confirmed_together(
    files: Seq<EntryView>,
    r: Reading,
    x: int,
    y: int,
) -> (h: int)
    requires
        files.len() > 0,
        0 <= x < files.len(),
        0 <= y < files.len(),
        x != y,
        files[0].size == files[x].size,
        matched(files[x], files[y], r),
    ensures
        0 <= h < confirmed(files, files.map_values(r.check)).len(),
        holds_both(confirmed(files, files.map_values(r.check))[h], files[x], files[y], r),
{
    let checks = files.map_values(r.check);
    let groups = confirmed(files, checks);
    if files[0].size <= 2 * PARTIAL_HASH_SIZE {
        let group = groups[0];
        assert(group[x] == info_of(files[x], (r.check)(files[x])));
        assert(group[y] == info_of(files[y], (r.check)(files[y])));
        0
    } else {
        let p = |i: int| checks[i].hash is Some;
        let at = readable(checks);
        let keys = check_keys(checks);
        lemma_filter_upto(checks.len(), p);
        assert(p(x) && p(y));
        assert(at.contains(x) && at.contains(y));
        let u = choose|u: int| 0 <= u < at.len() && at[u] == x;
        let v = choose|v: int| 0 <= v < at.len() && at[v] == y;
        assert(keys[u] == keys[v]);
        assert(is_shared(keys, u));
        assert(keys[v] == keys[u] && is_shared(keys, v));
        classes_hold_what_is_shared(keys, u);
        classes_hold_what_is_shared(keys, v);
        let g = choose|g: int| in_class(keys, g, u);
        let h = choose|h: int| in_class(keys, h, v);
        classes_part_the_positions(keys, g, h, u, v);
        let class = classes_of(keys)[g];
        let s = choose|s: int| 0 <= s < class.len() && class[s] == u;
        let t = choose|t: int| 0 <= t < class.len() && class[t] == v;
        assert(groups[g][s] == info_of(files[x], (r.check)(files[x])));
        assert(groups[g][t] == info_of(files[y], (r.check)(files[y])));
        g
    }
}

proof fn lemma_confirmed_upto_holds(
    candidates: Seq<Seq<EntryView>>,
    answers: Seq<Seq<FileCheck>>,
    g: int,
    h: int,
    k: int,
)
    requires
        0 <= g < k <= candidates.len(),
        0 <= h < confirmed(candidates[g], checks_of(answers, g, candidates[g].len())).len(),
    ensures
        confirmed_upto(candidates, answers, k).contains(
            confirmed(candidates[g], checks_of(answers, g, candidates[g].len()))[h],
        ),
    decreases k,
{
    let all = confirmed_upto(candidates, answers, k);
    let before = confirmed_upto(candidates, answers, k - 1);
    let own = confirmed(candidates[g], checks_of(answers, g, candidates[g].len()));
    if g < k - 1 {
        lemma_confirmed_upto_holds(candidates, answers, g, h, k - 1);
        let i = choose|i: int| 0 <= i < before.len() && before[i] == own[h];
        assert(all[i] == before[i]);
    } else {
        assert(all[before.len() + h] == own[h]);
    }
}

proof fn lemma_findings(groups: Seq<Seq<EntryView>>, r: Reading, g: int)
    requires
        0 <= g < groups.len(),
    ensures
        checks_of(findings(groups, r), g, groups[g].len()) == groups[g].map_values(r.check),
{
    assert(checks_of(findings(groups, r), g, groups[g].len()) =~= groups[g].map_values(r.check));
}

/// Files that come as far as the last comparison and match there are found: one group holds them
/// both.
pub proof fn matching_candidates_are_found(
    files: Seq<EntryView>,
    r: Reading,
    a: EntryView,
    b: EntryView,
)
    requires
        is_candidate(files, r, a),
        is_candidate(files, r, b),
        a.path != b.path,
        matched(a, b, r),
    ensures
        exists|g: int|
            0 <= g < duplicates(files, r).len() && holds_both(
                #[trigger] duplicates(files, r)[g],
                a,
                b,
                r,
            ),
{
    let results = ends_of_files(files, r);
    let keys = result_keys(results);
    let groups = candidate_groups(results);
    let answers = findings(groups, r);
    lemma_survives(files, r, a);
    lemma_survives(files, r, b);
    let ha = HashedView { path: a.path, written: a.written, size: a.size, hash: (r.ends)(a)->0 };
    let hb = HashedView { path: b.path, written: b.written, size: b.size, hash: (r.ends)(b)->0 };
    let i = choose|i: int| 0 <= i < results.len() && results[i] == ha;
    let j = choose|j: int| 0 <= j < results.len() && results[j] == hb;
    assert(keys[i] == keys[j]);
    assert(is_shared(keys, i));
    assert(keys[j] == keys[i] && is_shared(keys, j));
    classes_hold_what_is_shared(keys, i);
    classes_hold_what_is_shared(keys, j);
    let g = choose|g: int| in_class(keys, g, i);
    let h = choose|h: int| in_class(keys, h, j);
    classes_part_the_positions(keys, g, h, i, j);
    let class = classes_of(keys)[g];
    let x = choose|x: int| 0 <= x < class.len() && class[x] == i;
    let y = choose|y: int| 0 <= y < class.len() && class[y] == j;
    let group = groups[g];
    assert(group[x] == a) by {
        assert(group[x] == entry_of(results[class[x]]));
    }
    assert(group[y] == b) by {
        assert(group[y] == entry_of(results[class[y]]));
    }
    assert(group[0].size == a.size) by {
        lemma_members_in_range(keys, g);
        classes_share_a_key(keys, g);
        assert(group[0] == entry_of(results[class[0]]));
        if x != 0 {
            assert(keys[class[0]] == keys[class[x]]);
            assert(keys[class[0]].0 == results[class[0]].size);
        }
    }
    lemma_findings(groups, r, g);
    let n = lemma_confirmed_together(group, r, x, y);
    lemma_confirmed_upto_holds(groups, answers, g, n, groups.len() as int);
    let found = duplicates(files, r);
    let own = confirmed(group, group.map_values(r.check))[n];
    let m = choose|m: int| 0 <= m < found.len() && found[m] == own;
    assert(holds_both(found[m], a, b, r));
}

/// Files that reading does not tell apart are found: one group holds them both.
pub proof fn alike_files_are_found(files: Seq<EntryView>, r: Reading, a: EntryView, b: EntryView)
    requires
        files.contains(a),
        files.contains(b),
        a.path != b.path,
        alike(a, b, r),
    ensures
        exists|g: int|
            0 <= g < duplicates(files, r).len() && holds_both(
                #[trigger] duplicates(files, r)[g],
                a,
                b,
                r,
            ),
{
    assert(shares_start(files, r, a, b));
    assert(shares_start(files, r, b, a));
    matching_candidates_are_found(files, r, a, b);
}

/// What reading says of a file is a matter of its content and its size.
pub open spec fn reads_content(
    r: Reading,
    content: spec_fn(Seq<Step>) -> Seq<u8>,
    head: spec_fn(Seq<u8>, u64) -> u64,
    ends: spec_fn(Seq<u8>, u64) -> u64,
    last: spec_fn(Seq<u8>, u64) -> u64,
) -> bool {
    forall|e: EntryView|
        {
            &&& (#[trigger] (r.head)(e)) == Some(head(content(e.path), e.size))
            &&& (r.ends)(e) == Some(ends(content(e.path), e.size))
            &&& (r.check)(e).hash == Some(last(content(e.path), e.size))
        }
}

/// Files of the same size and content are found, where all files can be read: whatever hashes of
/// the content are compared, one group holds them both.
pub proof fn equal_contents_are_found(
    files: Seq<EntryView>,
    r: Reading,
    content: spec_fn(Seq<Step>) -> Seq<u8>,
    head: spec_fn(Seq<u8>, u64) -> u64,
    ends: spec_fn(Seq<u8>, u64) -> u64,
    last: spec_fn(Seq<u8>, u64) -> u64,
    a: EntryView,
    b: EntryView,
)
    requires
        reads_content(r, content, head, ends, last),
        files.contains(a),
        files.contains(b),
        a.path != b.path,
        a.size == b.size,
        content(a.path) == content(b.path),
    ensures
        exists|g: int|
            0 <= g < duplicates(files, r).len() && holds_both(
                #[trigger] duplicates(files, r)[g],
                a,
                b,
                r,
            ),
{
    assert((r.head)(a) == (r.head)(b));
    alike_files_are_found(files, r, a, b);
}

// ---------------------------------------------------------------------------
// From the groups back to the files
// ---------------------------------------------------------------------------

/// Two files that share their size, the hash of their ends, and, where they are longer than their
/// ends, the last hash.
pub open spec fn matched(a: EntryView, b: EntryView, r: Reading) -> bool {
    &&& a.size == b.size
    &&& (r.ends)(a) == (r.ends)(b)
    &&& (r.ends)(a) is Some
    &&& a.size > 2 * PARTIAL_HASH_SIZE ==> (r.check)(a).hash == (r.check)(b).hash && (r.check)(
        a,
    ).hash is Some
}

/// A group holds two files or more, each of which was found, and any two of which match.
pub open spec fn is_genuine(group: Seq<FileView>, files: Seq<EntryView>, r: Reading) -> bool {
    &&& group.len() >= 2
    &&& forall|i: int| 0 <= i < group.len() ==> was_found(#[trigger] group[i], files, r)
    &&& forall|i: int, j: int|
        0 <= i < group.len() && 0 <= j < group.len() ==> matched(
            entry_in(#[trigger] group[i]),
            entry_in(#[trigger] group[j]),
            r,
        )
}

/// The entry that a file of a group stems from.
pub open spec fn entry_in(f: FileView) -> EntryView {
    EntryView { path: f.path, written: f.written, size: f.size }
}

/// A file of a group is one of the files that were found, with what was found out of it.
pub open spec fn was_found(f: FileView, files: Seq<EntryView>, r: Reading) -> bool {
    files.contains(entry_in(f)) && f == info_of(entry_in(f), (r.check)(entry_in(f)))
}

proof fn lemma_results_genuine(files: Seq<EntryView>, r: Reading)
    ensures
        forall|k: int|
            0 <= k < ends_of_files(files, r).len() ==> {
                let h = #[trigger] ends_of_files(files, r)[k];
                &&& files.contains(entry_of(h))
                &&& (r.head)(entry_of(h)) is Some
                &&& (r.ends)(entry_of(h)) == Some(h.hash)
            },
        paths_differ(files) ==> paths_differ(result_entries(ends_of_files(files, r))),
{
    let c1 = same_sized(files);
    let heads = heads_of(files, r);
    let c2 = same_hashed(heads);
    let all = ends_of_files(files, r);
    lemma_picked(files, size_keys(files));
    lemma_stage(c1, r.head);
    lemma_picked(result_entries(heads), result_keys(heads));
    lemma_stage(c2, r.ends);
    assert forall|k: int| 0 <= k < all.len() implies {
        let h = #[trigger] all[k];
        &&& files.contains(entry_of(h))
        &&& (r.head)(entry_of(h)) is Some
        &&& (r.ends)(entry_of(h)) == Some(h.hash)
    } by {
        let e = entry_of(all[k]);
        assert(c2.contains(e));
        let i = choose|i: int| 0 <= i < c2.len() && c2[i] == e;
        assert(result_entries(heads).contains(c2[i]));
        let j = choose|j: int| 0 <= j < result_entries(heads).len() && result_entries(heads)[j] == e;
        assert(entry_of(heads[j]) == e);
        assert(c1.contains(entry_of(heads[j])));
        let l = choose|l: int| 0 <= l < c1.len() && c1[l] == e;
        assert(files.contains(c1[l]));
    }
}

/// Every file of a candidate group was found, and any two share their size and the hash of their
/// ends.
proof fn lemma_candidates_genuine(files: Seq<EntryView>, r: Reading, g: int)
    requires
        0 <= g < candidate_groups(ends_of_files(files, r)).len(),
    ensures
        ({
            let group = candidate_groups(ends_of_files(files, r))[g];
            &&& group.len() >= 2
            &&& forall|x: int|
                0 <= x < group.len() ==> files.contains(#[trigger] group[x]) && (r.ends)(
                    group[x],
                ) is Some
            &&& forall|x: int, y: int|
                0 <= x < group.len() && 0 <= y < group.len() ==> (#[trigger] group[x]).size == (
                #[trigger] group[y]).size && (r.ends)(group[x]) == (r.ends)(group[y])
        }),
{
    let results = ends_of_files(files, r);
    let keys = result_keys(results);
    let class = classes_of(keys)[g];
    let group = candidate_groups(results)[g];
    lemma_results_genuine(files, r);
    classes_share_a_key(keys, g);
    lemma_members_in_range(keys, g);
    assert forall|x: int| 0 <= x < group.len() implies files.contains(#[trigger] group[x]) && (
    r.ends)(group[x]) is Some by {
        assert(0 <= class[x] < results.len());
        assert(group[x] == entry_of(results[class[x]]));
    }
    assert forall|x: int, y: int| 0 <= x < group.len() && 0 <= y < group.len() implies (
    #[trigger] group[x]).size == (#[trigger] group[y]).size && (r.ends)(group[x]) == (r.ends)(
        group[y],
    ) by {
        assert(0 <= class[x] < results.len() && 0 <= class[y] < results.len());
        assert(group[x] == entry_of(results[class[x]]));
        assert(group[y] == entry_of(results[class[y]]));
        assert(keys[class[x]] == keys[class[y]]) by {
            if x < y {
                assert(class[x] < class[y]);
            } else if y < x {
                assert(class[y] < class[x]);
            }
        }
        assert(keys[class[x]] == (results[class[x]].size, results[class[x]].hash));
        assert(keys[class[y]] == (results[class[y]].size, results[class[y]].hash));
    }
}

/// Where a file of a confirmed group stood among the candidates.
pub open spec fn place_in(group: Seq<EntryView>, r: Reading, h: int, i: int) -> int {
    if group[0].size <= 2 * PARTIAL_HASH_SIZE {
        i
    } else {
        let checks = group.map_values(r.check);
        readable(checks)[classes_of(check_keys(checks))[h][i]]
    }
}

proof fn lemma_confirmed_genuine(group: Seq<EntryView>, r: Reading, h: int)
    requires
        group.len() >= 2,
        0 <= h < confirmed(group, group.map_values(r.check)).len(),
    ensures
        ({
            let found = confirmed(group, group.map_values(r.check))[h];
            &&& found.len() >= 2
            &&& forall|i: int|
                0 <= i < found.len() ==> {
                    let e = group[place_in(group, r, h, i)];
                    &&& 0 <= place_in(group, r, h, i) < group.len()
                    &&& #[trigger] found[i] == info_of(e, (r.check)(e))
                    &&& group[0].size > 2 * PARTIAL_HASH_SIZE ==> (r.check)(e).hash is Some
                }
            &&& forall|i: int, j: int|
                0 <= i < j < found.len() && group[0].size > 2 * PARTIAL_HASH_SIZE ==> {
                    let a = group[place_in(group, r, h, i)];
                    let b = group[place_in(group, r, h, j)];
                    #[trigger] found[i] == found[i] && #[trigger] found[j] == found[j] && (r.check)(
                        a,
                    ).hash == (r.check)(b).hash
                }
            &&& forall|i: int, j: int|
                0 <= i < j < found.len() ==> {
                    &&& #[trigger] found[i] == found[i]
                    &&& #[trigger] found[j] == found[j]
                    &&& place_in(group, r, h, i) < place_in(group, r, h, j)
                }
        }),
{
    let checks = group.map_values(r.check);
    let found = confirmed(group, checks)[h];
    if group[0].size > 2 * PARTIAL_HASH_SIZE {
        let p = |i: int| checks[i].hash is Some;
        let at = readable(checks);
        let keys = check_keys(checks);
        let class = classes_of(keys)[h];
        lemma_filter_upto(checks.len(), p);
        classes_share_a_key(keys, h);
        lemma_members_in_range(keys, h);
        assert forall|i: int| 0 <= i < found.len() implies {
            let e = group[place_in(group, r, h, i)];
            &&& 0 <= place_in(group, r, h, i) < group.len()
            &&& #[trigger] found[i] == info_of(e, (r.check)(e))
            &&& (r.check)(e).hash is Some
        } by {
            assert(0 <= class[i] < keys.len());
            let x = at[class[i]];
            assert(0 <= x < checks.len() && p(x));
            assert(checks[x] == (r.check)(group[x]));
        }
        assert forall|i: int, j: int| 0 <= i < j < found.len() implies {
            let a = group[place_in(group, r, h, i)];
            let b = group[place_in(group, r, h, j)];
            &&& #[trigger] found[i] == found[i]
            &&& #[trigger] found[j] == found[j]
            &&& (r.check)(a).hash == (r.check)(b).hash
            &&& place_in(group, r, h, i) < place_in(group, r, h, j)
        } by {
            assert(class[i] < class[j]);
            assert(keys[class[i]] == keys[class[j]]);
            assert(at[class[i]] < at[class[j]]);
            let x = at[class[i]];
            let y = at[class[j]];
            assert(p(x) && p(y));
            assert(checks[x] == (r.check)(group[x]) && checks[y] == (r.check)(group[y]));
            assert(keys[class[i]] == (checks[x].hash->0, 0u64));
            assert(keys[class[j]] == (checks[y].hash->0, 0u64));
        }
    }
}

/// Which candidate group a group that was found comes from, and which of its groups it is.
proof fn lemma_origin(
    candidates: Seq<Seq<EntryView>>,
    answers: Seq<Seq<FileCheck>>,
    k: int,
    m: int,
) -> (r: (int, int))
    requires
        0 <= k <= candidates.len(),
        0 <= m < confirmed_upto(candidates, answers, k).len(),
    ensures
        0 <= r.0 < k,
        0 <= r.1 < confirmed(
            candidates[r.0],
            checks_of(answers, r.0, candidates[r.0].len()),
        ).len(),
        confirmed_upto(candidates, answers, k)[m] == confirmed(
            candidates[r.0],
            checks_of(answers, r.0, candidates[r.0].len()),
        )[r.1],
        m == confirmed_upto(candidates, answers, r.0).len() + r.1,
    decreases k,
{
    let before = confirmed_upto(candidates, answers, k - 1);
    if m < before.len() {
        let r = lemma_origin(candidates, answers, k - 1, m);
        assert(confirmed_upto(candidates, answers, k)[m] == before[m]);
        r
    } else {
        (k - 1, m - before.len())
    }
}

/// Every group that is found is genuine.
pub proof fn duplicates_are_genuine(files: Seq<EntryView>, r: Reading, m: int)
    requires
        0 <= m < duplicates(files, r).len(),
    ensures
        is_genuine(duplicates(files, r)[m], files, r),
{
    let groups = candidate_groups(ends_of_files(files, r));
    let answers = findings(groups, r);
    let (g, h) = lemma_origin(groups, answers, groups.len() as int, m);
    lemma_findings(groups, r, g);
    lemma_candidates_genuine(files, r, g);
    let group = groups[g];
    let found = duplicates(files, r)[m];
    lemma_confirmed_genuine(group, r, h);
    assert forall|i: int| 0 <= i < found.len() implies was_found(#[trigger] found[i], files, r) by {
        let e = group[place_in(group, r, h, i)];
        assert(found[i] == info_of(e, (r.check)(e)));
        assert(entry_in(found[i]) == e);
    }
    assert forall|i: int, j: int| 0 <= i < found.len() && 0 <= j < found.len() implies matched(
        entry_in(#[trigger] found[i]),
        entry_in(#[trigger] found[j]),
        r,
    ) by {
        let a = group[place_in(group, r, h, i)];
        let b = group[place_in(group, r, h, j)];
        assert(entry_in(found[i]) == a);
        assert(entry_in(found[j]) == b);
        assert(group[0].size == a.size);
        if a.size > 2 * PARTIAL_HASH_SIZE && i != j {
            if i < j {
                assert((r.check)(a).hash == (r.check)(b).hash);
            } else {
                assert((r.check)(b).hash == (r.check)(a).hash);
            }
        }
    }
}

proof fn lemma_picked_share(entries: Seq<EntryView>, keys: Seq<(u64, u64)>, k: int) -> (r: (
    int,
    int,
))
    requires
        entries.len() == keys.len(),
        0 <= k < picked(entries, keys).len(),
    ensures
        0 <= r.0 < entries.len(),
        0 <= r.1 < entries.len(),
        r.0 != r.1,
        picked(entries, keys)[k] == entries[r.0],
        keys[r.0] == keys[r.1],
{
    let p = |i: int| is_shared(keys, i);
    let at = upto(keys.len()).filter(p);
    lemma_filter_upto(keys.len(), p);
    let i = at[k];
    assert(0 <= i < keys.len() && p(i));
    assert(picked(entries, keys)[k] == entries[i]);
    let j = choose|j: int| 0 <= j < keys.len() && j != i && keys[j] == keys[i];
    (i, j)
}

proof fn lemma_results_are_candidates(files: Seq<EntryView>, r: Reading, k: int)
    requires
        paths_differ(files),
        0 <= k < ends_of_files(files, r).len(),
    ensures
        is_candidate(files, r, entry_of(ends_of_files(files, r)[k])),
{
    let c1 = same_sized(files);
    let heads = heads_of(files, r);
    let es = result_entries(heads);
    let c2 = same_hashed(heads);
    let e = entry_of(ends_of_files(files, r)[k]);
    lemma_results_genuine(files, r);
    lemma_picked(files, size_keys(files));
    lemma_stage(c1, r.head);
    lemma_stage(c2, r.ends);
    assert(c2.contains(e));
    let n = choose|n: int| 0 <= n < c2.len() && c2[n] == e;
    let (i, j) = lemma_picked_share(es, result_keys(heads), n);
    let f = es[j];
    assert(entry_of(heads[i]) == e && entry_of(heads[j]) == f);
    assert(heads[i].size == heads[j].size && heads[i].hash == heads[j].hash) by {
        assert(result_keys(heads)[i] == (heads[i].size, heads[i].hash));
        assert(result_keys(heads)[j] == (heads[j].size, heads[j].hash));
    }
    assert(c1.contains(f));
    let m = choose|m: int| 0 <= m < c1.len() && c1[m] == f;
    assert(files.contains(c1[m]));
    assert(f.path != e.path) by {
        if i < j {
            assert(es[i].path != es[j].path);
        } else {
            assert(es[j].path != es[i].path);
        }
    }
    assert(shares_start(files, r, e, f));
}

/// Every file of a group came as far as the last comparison.
pub proof fn found_files_are_candidates(files: Seq<EntryView>, r: Reading, m: int, i: int)
    requires
        paths_differ(files),
        0 <= m < duplicates(files, r).len(),
        0 <= i < duplicates(files, r)[m].len(),
    ensures
        is_candidate(files, r, entry_in(duplicates(files, r)[m][i])),
{
    let results = ends_of_files(files, r);
    let keys = result_keys(results);
    let groups = candidate_groups(results);
    let (g, h) = lemma_origin(groups, findings(groups, r), groups.len() as int, m);
    lemma_findings(groups, r, g);
    lemma_candidates_genuine(files, r, g);
    lemma_confirmed_genuine(groups[g], r, h);
    lemma_members_in_range(keys, g);
    let x = place_in(groups[g], r, h, i);
    let e = groups[g][x];
    assert(duplicates(files, r)[m][i] == info_of(e, (r.check)(e)));
    let u = classes_of(keys)[g][x];
    assert(0 <= u < results.len());
    assert(e == entry_of(results[u]));
    lemma_results_are_candidates(files, r, u);
}

/// What is hashed of the ends of a file with the given content.
pub open spec fn content_ends(content: Seq<u8>) -> Option<Seq<u8>> {
    ends_of(content.len() as u64, Some(content_head(content)), Some(content_tail(content)))
}

/// Reading tells of each file, where it can be read, the hash of its ends and that of its whole
/// content.
pub open spec fn reads_whole(r: Reading, content: spec_fn(Seq<Step>) -> Seq<u8>) -> bool {
    forall|e: EntryView|
        {
            &&& (#[trigger] (r.ends)(e)) is Some ==> (r.ends)(e) == Some(
                xxh3_64_of(content_ends(content(e.path))->0),
            )
            &&& (r.check)(e).hash is Some ==> (r.check)(e).hash == Some(
                xxh3_digest_of(content(e.path)),
            )
        }
}

/// The files have the sizes of their contents.
pub open spec fn sizes_are_true(
    files: Seq<EntryView>,
    content: spec_fn(Seq<Step>) -> Seq<u8>,
) -> bool {
    forall|i: int| 0 <= i < files.len() ==> (#[trigger] files[i]).size == content(files[i].path).len()
}

/// The hashes tell apart what differs among the files.
pub open spec fn hashes_do_not_collide(
    files: Seq<EntryView>,
    content: spec_fn(Seq<Step>) -> Seq<u8>,
) -> bool {
    forall|i: int, j: int|
        0 <= i < files.len() && 0 <= j < files.len() ==> {
            let a = content((#[trigger] files[i]).path);
            let b = content((#[trigger] files[j]).path);
            &&& xxh3_64_of(content_ends(a)->0) == xxh3_64_of(content_ends(b)->0) ==> content_ends(a)
                == content_ends(b)
            &&& xxh3_digest_of(a) == xxh3_digest_of(b) ==> a == b
        }
}

/// Files of one group are duplicates byte for byte, where whole files are compared and no two of
/// the hashes happen to agree on what differs.
pub proof fn duplicates_have_equal_contents(
    files: Seq<EntryView>,
    r: Reading,
    content: spec_fn(Seq<Step>) -> Seq<u8>,
    m: int,
    i: int,
    j: int,
)
    requires
        reads_whole(r, content),
        sizes_are_true(files, content),
        hashes_do_not_collide(files, content),
        0 <= m < duplicates(files, r).len(),
        0 <= i < duplicates(files, r)[m].len(),
        0 <= j < duplicates(files, r)[m].len(),
    ensures
        content(duplicates(files, r)[m][i].path) == content(duplicates(files, r)[m][j].path),
{
    duplicates_are_genuine(files, r, m);
    let group = duplicates(files, r)[m];
    let a = entry_in(group[i]);
    let b = entry_in(group[j]);
    assert(was_found(group[i], files, r) && was_found(group[j], files, r));
    let p = choose|p: int| 0 <= p < files.len() && files[p] == a;
    let q = choose|q: int| 0 <= q < files.len() && files[q] == b;
    assert(files[p] == a && files[q] == b);
    assert(matched(a, b, r));
    if a.size <= 2 * PARTIAL_HASH_SIZE {
        short_files_are_hashed_whole(content(a.path), content(b.path));
    }
}

/// No file is found twice: where no two files have the same path, no two places in the groups do.
pub proof fn no_file_is_found_twice(
    files: Seq<EntryView>,
    r: Reading,
    m: int,
    i: int,
    n: int,
    j: int,
)
    requires
        paths_differ(files),
        0 <= m < duplicates(files, r).len(),
        0 <= n < duplicates(files, r).len(),
        0 <= i < duplicates(files, r)[m].len(),
        0 <= j < duplicates(files, r)[n].len(),
        duplicates(files, r)[m][i].path == duplicates(files, r)[n][j].path,
    ensures
        m == n,
        i == j,
{
    let results = ends_of_files(files, r);
    let keys = result_keys(results);
    let groups = candidate_groups(results);
    let answers = findings(groups, r);
    let (g, h) = lemma_origin(groups, answers, groups.len() as int, m);
    let (k, l) = lemma_origin(groups, answers, groups.len() as int, n);
    lemma_findings(groups, r, g);
    lemma_findings(groups, r, k);
    lemma_candidates_genuine(files, r, g);
    lemma_candidates_genuine(files, r, k);
    lemma_confirmed_genuine(groups[g], r, h);
    lemma_confirmed_genuine(groups[k], r, l);
    lemma_results_genuine(files, r);
    lemma_members_in_range(keys, g);
    lemma_members_in_range(keys, k);
    let f = duplicates(files, r)[m];
    let e = duplicates(files, r)[n];
    let x = place_in(groups[g], r, h, i);
    let y = place_in(groups[k], r, l, j);
    assert(f[i] == info_of(groups[g][x], (r.check)(groups[g][x])));
    assert(e[j] == info_of(groups[k][y], (r.check)(groups[k][y])));
    let u = classes_of(keys)[g][x];
    let v = classes_of(keys)[k][y];
    assert(0 <= u < results.len() && 0 <= v < results.len());
    assert(groups[g][x] == entry_of(results[u]));
    assert(groups[k][y] == entry_of(results[v]));
    let es = result_entries(results);
    assert(es[u].path == es[v].path);
    assert(u == v) by {
        if u < v {
            assert(es[u].path != es[v].path);
        } else if v < u {
            assert(es[v].path != es[u].path);
        }
    }
    assert(in_class(keys, g, u) && in_class(keys, k, v));
    classes_part_the_positions(keys, g, k, u, v);
    assert(g == k);
    classes_share_a_key(keys, g);
    assert(x == y) by {
        if x < y {
            assert(classes_of(keys)[g][x] < classes_of(keys)[g][y]);
        } else if y < x {
            assert(classes_of(keys)[g][y] < classes_of(keys)[g][x]);
        }
    }
    lemma_apart(groups[g], r, h, i, l, j);
}

/// Within a candidate group no file is in two places.
proof fn lemma_apart(group: Seq<EntryView>, r: Reading, h: int, i: int, l: int, j: int)
    requires
        group.len() >= 2,
        0 <= h < confirmed(group, group.map_values(r.check)).len(),
        0 <= l < confirmed(group, group.map_values(r.check)).len(),
        0 <= i < confirmed(group, group.map_values(r.check))[h].len(),
        0 <= j < confirmed(group, group.map_values(r.check))[l].len(),
        place_in(group, r, h, i) == place_in(group, r, l, j),
    ensures
        h == l,
        i == j,
{
    let checks = group.map_values(r.check);
    if group[0].size > 2 * PARTIAL_HASH_SIZE {
        let at = readable(checks);
        let keys = check_keys(checks);
        lemma_filter_upto(checks.len(), |i: int| checks[i].hash is Some);
        lemma_members_in_range(keys, h);
        lemma_members_in_range(keys, l);
        classes_share_a_key(keys, h);
        let u = classes_of(keys)[h][i];
        let v = classes_of(keys)[l][j];
        assert(0 <= u < at.len() && 0 <= v < at.len());
        assert(u == v) by {
            if u < v {
                assert(at[u] < at[v]);
            } else if v < u {
                assert(at[v] < at[u]);
            }
        }
        assert(in_class(keys, h, u) && in_class(keys, l, v));
        classes_part_the_positions(keys, h, l, u, v);
        if i < j {
            assert(classes_of(keys)[h][i] < classes_of(keys)[h][j]);
        } else if j < i {
            assert(classes_of(keys)[h][j] < classes_of(keys)[h][i]);
        }
    }
}

} // verus!
