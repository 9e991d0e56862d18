//! What is hashed in each stage of a scan, and which files come through it.
use vstd::prelude::*;

use crate::grouping::{
    classes_hold_what_is_shared, classes_of, in_class, is_shared, leaders, leads, members, upto,
};
use crate::hash::{
    content_head, content_tail, ends_of, head_bytes, joined, middle_len, plan_of, sample_count,
    sample_starts, PARTIAL_HASH_SIZE, PlanView,
};
use crate::path::{PathView, Step};
use crate::record::FileView;
use crate::scan_laws::{duplicates, duplicates_are_genuine, entry_in, was_found, Reading};
use crate::scanner::{
    action_after, action_in, candidate_groups, check_keys, checks_of, confirmed, confirmed_upto,
    entry_of, found_groups, fresh_state, hashed, info_of, picked, progress_in, readable, remaining,
    result_entries, result_keys, same_hashed, size_keys, state_after, summary, ActionView,
    EntryView, EventView, FileCheck, HashedView, ScanPhase, StateView,
};
use crate::sequence::{ascend_below, lemma_filter_places};
use crate::text::decimal;

verus! {

// ---------------------------------------------------------------------------
// What is read of a file
// ---------------------------------------------------------------------------

/// At the start of a file 4 KiB are read, or all of it where it is shorter; a file that is longer
/// has an end that is read apart.
pub proof fn starts_have_four_kibibytes(size: u64)
    ensures
        size <= 4096 ==> head_bytes(size) == size,
        size >= 4096 ==> head_bytes(size) == 4096,
        PARTIAL_HASH_SIZE == 4096,
{
}

/// The ends of a file of up to 4 KiB are its start; those of a longer one are its start and its end,
/// both of which have to be readable.
pub proof fn ends_are_start_and_end(size: u64, start: Seq<u8>, end: Seq<u8>, other: Option<Seq<u8>>)
    ensures
        ends_of(size, None, other) is None,
        size <= 4096 ==> ends_of(size, Some(start), other) == Some(start),
        size > 4096 ==> ends_of(size, Some(start), Some(end)) == Some(start + end),
        size > 4096 ==> ends_of(size, Some(start), None) is None,
{
}

/// A file of up to 8 KiB is not read again for the last comparison, for its ends are all of it. A
/// longer one is read whole, unless samples are asked for and one fits between the ends. Then there
/// are as many as were asked for, or as many as fit; they lie at equal distances, each in the middle
/// of its share.
pub proof fn whole_files_are_compared_or_samples(size: u64, fast: Option<u32>)
    ensures
        size <= 8192 ==> plan_of(size, fast) is Nothing,
        size > 8192 && fast is None ==> plan_of(size, fast) is Whole,
        fast matches Some(n) ==> size > 8192 ==> {
            let room = (size - 8192) / 4096;
            &&& n == 0 || room == 0 ==> plan_of(size, fast) is Whole
            &&& n > 0 && room > 0 ==> (plan_of(size, fast) matches PlanView::Samples(starts) && {
                let share = (size - 8192) / (starts.len() as int);
                &&& starts.len() == if n < room {
                    n as int
                } else {
                    room
                }
                &&& starts[0] == 4096 + (share - 4096) / 2
                &&& forall|i: int, j: int|
                    0 <= i < starts.len() && j == i + 1 && j < starts.len() ==> #[trigger] starts[j]
                        - #[trigger] starts[i] == share
            })
        },
{
    if let Some(n) = fast {
        if size > 8192 && n > 0 && (size - 8192) / 4096 > 0 {
            let starts = sample_starts(size as int, n as int);
            let count = sample_count(size as int, n as int);
            let share = middle_len(size as int) / count;
            assert(starts.len() == count);
            assert(0 * share == 0);
            assert forall|i: int, j: int|
                0 <= i < starts.len() && j == i + 1 && j < starts.len() implies #[trigger] starts[j]
                - #[trigger] starts[i] == share by {
                assert((i + 1) * share - i * share == share) by (nonlinear_arith);
            }
        }
    }
}

/// Samples are hashed one behind the other.
pub proof fn samples_are_joined(samples: Seq<Vec<u8>>, more: Vec<u8>)
    ensures
        joined(seq![]) == Seq::<u8>::empty(),
        joined(samples.push(more)) == joined(samples) + more@,
{
    assert(samples.push(more).drop_last() =~= samples);
}

// ---------------------------------------------------------------------------
// Candidates
// ---------------------------------------------------------------------------

/// The candidates are the files at these positions: all that share their key with another.
pub open spec fn share_with_another(
    at: Seq<int>,
    files: Seq<EntryView>,
    keys: Seq<(u64, u64)>,
    candidates: Seq<EntryView>,
) -> bool {
    &&& ascend_below(at, files.len() as int)
    &&& candidates.len() == at.len()
    &&& forall|k: int|
        0 <= k < at.len() ==> candidates[k] == files[#[trigger] at[k]] && exists|j: int|
            0 <= j < files.len() && j != at[k] && #[trigger] keys[j] == keys[at[k]]
    &&& forall|i: int, j: int|
        0 <= i < files.len() && 0 <= j < files.len() && i != j && #[trigger] keys[i]
            == #[trigger] keys[j] ==> at.contains(i)
}

proof fn lemma_picked_places(files: Seq<EntryView>, keys: Seq<(u64, u64)>) -> (at: Seq<int>)
    requires
        files.len() == keys.len(),
    ensures
        share_with_another(at, files, keys, picked(files, keys)),
{
    let all = upto(keys.len());
    let p = |i: int| is_shared(keys, i);
    let at = lemma_filter_places(all, p);
    let kept = all.filter(p);
    assert forall|k: int| 0 <= k < at.len() implies kept[k] == #[trigger] at[k] && is_shared(
        keys,
        at[k],
    ) by {
        assert(all[at[k]] == at[k]);
        assert(p(all[at[k]]));
    }
    assert forall|i: int, j: int|
        0 <= i < files.len() && 0 <= j < files.len() && i != j && #[trigger] keys[i]
            == #[trigger] keys[j] implies at.contains(i) by {
        assert(all[i] == i);
        assert(is_shared(keys, i));
        assert(p(all[i]));
    }
    at
}

/// Once the walk is over, the files whose starts are hashed are exactly those of which another has
/// the same size, in the order in which they were found. Nothing is forgotten of what was found.
pub proof fn files_of_one_size_are_candidates(s: StateView)
    requires
        s.phase == ScanPhase::Walking,
    ensures
        ({
            let after = state_after(s, EventView::WalkDone);
            let sizes = Seq::new(s.files.len(), |i: int| (s.files[i].size, 0u64));
            &&& after.phase == ScanPhase::HeadHashing
            &&& exists|at: Seq<int>| #[trigger]
                share_with_another(at, s.files, sizes, after.head_candidates)
            &&& after == (StateView {
                phase: after.phase,
                head_candidates: after.head_candidates,
                ..s
            })
        }),
{
    let after = state_after(s, EventView::WalkDone);
    let sizes = Seq::new(s.files.len(), |i: int| (s.files[i].size, 0u64));
    assert(size_keys(s.files) =~= sizes);
    let at = lemma_picked_places(s.files, sizes);
    assert(share_with_another(at, s.files, sizes, after.head_candidates));
}

/// The results are those of the files at these positions: all whose hash is known, each with it.
pub open spec fn are_hashed_at(
    at: Seq<int>,
    files: Seq<EntryView>,
    hashes: Seq<Option<u64>>,
    results: Seq<HashedView>,
) -> bool {
    &&& ascend_below(at, files.len() as int)
    &&& results.len() == at.len()
    &&& forall|k: int|
        0 <= k < at.len() ==> {
            let e = files[#[trigger] at[k]];
            &&& hashes[at[k]] == Some(results[k].hash)
            &&& results[k].path == e.path && results[k].written == e.written
            &&& results[k].size == e.size
        }
    &&& forall|i: int| 0 <= i < files.len() && #[trigger] hashes[i] is Some ==> at.contains(i)
}

proof fn lemma_hashed_places(files: Seq<EntryView>, hashes: Seq<Option<u64>>) -> (at: Seq<int>)
    requires
        files.len() <= hashes.len(),
    ensures
        are_hashed_at(at, files, hashes, hashed(files, hashes)),
    decreases files.len(),
{
    if files.len() == 0 {
        Seq::empty()
    } else {
        let front = files.drop_last();
        let last = files.len() - 1;
        let some = lemma_hashed_places(front, hashes);
        assert forall|k: int| 0 <= k < some.len() implies front[#[trigger] some[k]]
            == files[some[k]] by {}
        if hashes[last] is Some {
            let at = some.push(last);
            assert forall|i: int| 0 <= i < files.len() && #[trigger] hashes[i] is Some implies
                at.contains(i) by {
                if i < last {
                    let k = choose|k: int| 0 <= k < some.len() && some[k] == i;
                    assert(at[k] == i);
                } else {
                    assert(at[some.len() as int] == i);
                }
            }
            at
        } else {
            some
        }
    }
}

/// The hashes of starts are taken down for the next candidates, one for one and in their order, with
/// those left out that could not be had. Once all are there, the files whose ends are hashed are
/// exactly those of which another has the same size and the same start.
pub proof fn starts_are_taken_down(s: StateView, hashes: Seq<Option<u64>>)
    requires
        s.phase == ScanPhase::HeadHashing,
        0 <= s.head_idx,
        s.head_idx + hashes.len() <= s.head_candidates.len(),
    ensures
        ({
            let after = state_after(s, EventView::Heads(hashes));
            let n = s.head_results.len() as int;
            let next = s.head_candidates.subrange(s.head_idx, s.head_idx + hashes.len());
            let keys = Seq::new(
                after.head_results.len(),
                |i: int| (after.head_results[i].size, after.head_results[i].hash),
            );
            let files = Seq::new(
                after.head_results.len(),
                |i: int|
                    EntryView {
                        path: after.head_results[i].path,
                        written: after.head_results[i].written,
                        size: after.head_results[i].size,
                    },
            );
            &&& after.head_idx == s.head_idx + hashes.len()
            &&& n <= after.head_results.len() && after.head_results.take(n) == s.head_results
            &&& exists|at: Seq<int>| #[trigger]
                are_hashed_at(at, next, hashes, after.head_results.skip(n))
            &&& after.head_idx < s.head_candidates.len() ==> after == (StateView {
                head_idx: after.head_idx,
                head_results: after.head_results,
                ..s
            })
            &&& after.head_idx == s.head_candidates.len() ==> {
                &&& after.phase == ScanPhase::PartialHashing
                &&& exists|at: Seq<int>| #[trigger]
                    share_with_another(at, files, keys, after.partial_candidates)
                &&& after == (StateView {
                    phase: after.phase,
                    head_idx: after.head_idx,
                    head_results: after.head_results,
                    partial_candidates: after.partial_candidates,
                    ..s
                })
            }
        }),
{
    let after = state_after(s, EventView::Heads(hashes));
    let n = s.head_results.len() as int;
    let next = s.head_candidates.subrange(s.head_idx, s.head_idx + hashes.len());
    let more = hashed(next, hashes);
    assert(remaining(s.head_candidates, s.head_idx).take(hashes.len() as int) =~= next);
    assert(after.head_results == s.head_results + more);
    assert(after.head_results.take(n) =~= s.head_results);
    assert(after.head_results.skip(n) =~= more);
    let at = lemma_hashed_places(next, hashes);
    assert(are_hashed_at(at, next, hashes, after.head_results.skip(n)));
    let keys = Seq::new(
        after.head_results.len(),
        |i: int| (after.head_results[i].size, after.head_results[i].hash),
    );
    let files = Seq::new(
        after.head_results.len(),
        |i: int|
            EntryView {
                path: after.head_results[i].path,
                written: after.head_results[i].written,
                size: after.head_results[i].size,
            },
    );
    assert(result_keys(after.head_results) =~= keys);
    assert(result_entries(after.head_results) =~= files);
    let shared = lemma_picked_places(files, keys);
    assert(share_with_another(shared, files, keys, picked(files, keys)));
}

/// The hashes of ends are taken down for the next candidates in the same way. Once all are there,
/// the last comparison begins.
pub proof fn ends_are_taken_down(s: StateView, hashes: Seq<Option<u64>>)
    requires
        s.phase == ScanPhase::PartialHashing,
        0 <= s.partial_idx,
        s.partial_idx + hashes.len() <= s.partial_candidates.len(),
    ensures
        ({
            let after = state_after(s, EventView::Ends(hashes));
            let n = s.partial_results.len() as int;
            let next = s.partial_candidates.subrange(
                s.partial_idx,
                s.partial_idx + hashes.len(),
            );
            &&& after.partial_idx == s.partial_idx + hashes.len()
            &&& n <= after.partial_results.len() && after.partial_results.take(n)
                == s.partial_results
            &&& exists|at: Seq<int>| #[trigger]
                are_hashed_at(at, next, hashes, after.partial_results.skip(n))
            &&& after.phase == if after.partial_idx < s.partial_candidates.len() {
                ScanPhase::PartialHashing
            } else {
                ScanPhase::FullHashing
            }
            &&& after == (StateView {
                phase: after.phase,
                partial_idx: after.partial_idx,
                partial_results: after.partial_results,
                ..s
            })
        }),
{
    let after = state_after(s, EventView::Ends(hashes));
    let n = s.partial_results.len() as int;
    let next = s.partial_candidates.subrange(s.partial_idx, s.partial_idx + hashes.len());
    let more = hashed(next, hashes);
    assert(remaining(s.partial_candidates, s.partial_idx).take(hashes.len() as int) =~= next);
    assert(after.partial_results.take(n) =~= s.partial_results);
    assert(after.partial_results.skip(n) =~= more);
    let at = lemma_hashed_places(next, hashes);
    assert(are_hashed_at(at, next, hashes, after.partial_results.skip(n)));
}

/// A scan asks for what its stage needs: for the directories, for the starts or the ends of all
/// candidates that are left, and at last for the comparison of each group of files that share their
/// size and their ends.
pub proof fn scans_ask_for_what_is_missing(s: StateView, fast: Option<u32>)
    requires
        0 <= s.head_idx <= s.head_candidates.len(),
        0 <= s.partial_idx <= s.partial_candidates.len(),
    ensures
        s.phase == ScanPhase::Walking ==> action_in(s, fast) is Walk,
        s.phase == ScanPhase::HeadHashing ==> action_in(s, fast) == ActionView::HashHeads(
            s.head_candidates.subrange(s.head_idx, s.head_candidates.len() as int),
        ),
        s.phase == ScanPhase::PartialHashing ==> action_in(s, fast) == ActionView::HashEnds(
            s.partial_candidates.subrange(s.partial_idx, s.partial_candidates.len() as int),
        ),
        s.phase == ScanPhase::FullHashing || s.phase == ScanPhase::Done ==> (action_in(
            s,
            fast,
        ) matches ActionView::Verify(list) && list.len() == candidate_groups(
            s.partial_results,
        ).len() && forall|g: int|
            0 <= g < list.len() ==> (#[trigger] list[g]).files == candidate_groups(
                s.partial_results,
            )[g] && list[g].plan == plan_of(list[g].files[0].size, fast)),
{
    assert(s.head_candidates.skip(s.head_idx) =~= s.head_candidates.subrange(
        s.head_idx,
        s.head_candidates.len() as int,
    ));
    assert(s.partial_candidates.skip(s.partial_idx) =~= s.partial_candidates.subrange(
        s.partial_idx,
        s.partial_candidates.len() as int,
    ));
}

// ---------------------------------------------------------------------------
// The last comparison
// ---------------------------------------------------------------------------

/// A file of a group is the given one, with the dates that were found out of it.
pub open spec fn is_file_with_dates(f: FileView, e: EntryView, check: FileCheck) -> bool {
    &&& f.path == e.path && f.written == e.written && f.size == e.size
    &&& f.created == check.created && f.modified == check.modified
}

/// The group holds the files at these positions: all with that last hash.
pub open spec fn have_last_hash(
    at: Seq<int>,
    files: Seq<EntryView>,
    checks: Seq<FileCheck>,
    group: Seq<FileView>,
    hash: u64,
) -> bool {
    &&& ascend_below(at, files.len() as int)
    &&& group.len() == at.len()
    &&& forall|k: int|
        0 <= k < at.len() ==> is_file_with_dates(
            group[k],
            files[#[trigger] at[k]],
            checks[at[k]],
        ) && checks[at[k]].hash == Some(hash)
    &&& forall|i: int|
        0 <= i < files.len() && (#[trigger] checks[i]).hash == Some(hash) ==> at.contains(i)
}

/// Files of up to 8 KiB that share their ends are one group, in their order.
pub proof fn short_files_need_no_comparison(files: Seq<EntryView>, checks: Seq<FileCheck>)
    requires
        files.len() == checks.len(),
        files.len() > 0,
        files[0].size <= 8192,
    ensures
        confirmed(files, checks).len() == 1,
        confirmed(files, checks)[0].len() == files.len(),
        forall|i: int|
            0 <= i < files.len() ==> is_file_with_dates(
                #[trigger] confirmed(files, checks)[0][i],
                files[i],
                checks[i],
            ),
{
}

/// Longer files come in one group if and only if they could be read and have the same last hash.
/// Each group holds two files or more, all that have its hash, in their order; of different groups
/// the hashes differ.
pub proof fn files_with_one_last_hash_are_a_group(files: Seq<EntryView>, checks: Seq<FileCheck>)
    requires
        files.len() == checks.len(),
        files.len() > 0,
        files[0].size > 8192,
    ensures
        forall|h: int|
            0 <= h < confirmed(files, checks).len() ==> (#[trigger] confirmed(
                files,
                checks,
            )[h]).len() >= 2 && exists|at: Seq<int>, hash: u64| #[trigger]
                have_last_hash(at, files, checks, confirmed(files, checks)[h], hash),
        forall|i: int, j: int|
            0 <= i < files.len() && 0 <= j < files.len() && i != j && (#[trigger] checks[i]).hash
                is Some && checks[i].hash == (#[trigger] checks[j]).hash ==> exists|
                h: int,
                at: Seq<int>,
            |
                0 <= h < confirmed(files, checks).len() && #[trigger] have_last_hash(
                    at,
                    files,
                    checks,
                    confirmed(files, checks)[h],
                    checks[i].hash->0,
                ),
{
    let keys = check_keys(checks);
    let ok = readable(checks);
    let found = confirmed(files, checks);
    let all = upto(checks.len());
    let could = |i: int| checks[i].hash is Some;
    let places = lemma_filter_places(all, could);
    assert forall|k: int| 0 <= k < ok.len() implies ok[k] == #[trigger] places[k] && 0 <= ok[k]
        < checks.len() && checks[ok[k]].hash is Some by {
        assert(all[places[k]] == places[k]);
        assert(could(all[places[k]]));
    }
    assert(ok =~= places);
    assert forall|h: int| 0 <= h < found.len() implies (#[trigger] found[h]).len() >= 2 && exists|
        at: Seq<int>,
        hash: u64,
    | #[trigger] have_last_hash(at, files, checks, found[h], hash) by {
        lemma_class_has_last_hash(files, checks, h);
    }
    assert forall|i: int, j: int|
        0 <= i < files.len() && 0 <= j < files.len() && i != j && (#[trigger] checks[i]).hash is Some
            && checks[i].hash == (#[trigger] checks[j]).hash implies exists|h: int, at: Seq<int>|
        0 <= h < found.len() && #[trigger] have_last_hash(
            at,
            files,
            checks,
            found[h],
            checks[i].hash->0,
        ) by {
        assert(all[i] == i && all[j] == j);
        assert(could(all[i]) && could(all[j]));
        assert(places.contains(i) && places.contains(j));
        let a = choose|a: int| 0 <= a < places.len() && places[a] == i;
        let b = choose|b: int| 0 <= b < places.len() && places[b] == j;
        assert(keys[a] == keys[b]);
        assert(is_shared(keys, a)) by {
            assert(keys[b] == keys[a] && b != a);
        }
        classes_hold_what_is_shared(keys, a);
        let h = choose|h: int| in_class(keys, h, a);
        lemma_class_has_last_hash(files, checks, h);
        let (at, hash) = choose|at: Seq<int>, hash: u64| #[trigger]
            have_last_hash(at, files, checks, found[h], hash);
        let c = classes_of(keys)[h];
        let k = choose|k: int| 0 <= k < c.len() && c[k] == a;
        assert(found[h][k] == info_of(files[ok[c[k]]], checks[ok[c[k]]]));
        lemma_class_hash(files, checks, h, k);
        assert(have_last_hash(places_in_files(checks, h), files, checks, found[h], checks[i].hash->0));
    }
}

/// The positions of the files of group `h`.
spec fn places_in_files(checks: Seq<FileCheck>, h: int) -> Seq<int> {
    let c = classes_of(check_keys(checks))[h];
    Seq::new(c.len(), |k: int| readable(checks)[c[k]])
}

proof fn lemma_class_hash(files: Seq<EntryView>, checks: Seq<FileCheck>, h: int, k: int)
    requires
        files.len() == checks.len(),
        files.len() > 0,
        files[0].size > 8192,
        0 <= h < confirmed(files, checks).len(),
        0 <= k < classes_of(check_keys(checks))[h].len(),
    ensures
        confirmed(files, checks)[h].len() >= 2,
        have_last_hash(
            places_in_files(checks, h),
            files,
            checks,
            confirmed(files, checks)[h],
            checks[readable(checks)[classes_of(check_keys(checks))[h][k]]].hash->0,
        ),
{
    let keys = check_keys(checks);
    let ok = readable(checks);
    let c = classes_of(keys)[h];
    let group = confirmed(files, checks)[h];
    let all = upto(checks.len());
    let could = |i: int| checks[i].hash is Some;
    let places = lemma_filter_places(all, could);
    assert forall|m: int| 0 <= m < ok.len() implies ok[m] == #[trigger] places[m] && 0 <= ok[m]
        < checks.len() && checks[ok[m]].hash is Some by {
        assert(all[places[m]] == places[m]);
        assert(could(all[places[m]]));
    }
    assert(ok =~= places);
    let lead = leaders(keys)[h];
    let leads_it = |i: int| leads(keys, i);
    let lat = lemma_filter_places(upto(keys.len()), leads_it);
    assert(upto(keys.len())[lat[h]] == lat[h]);
    assert(lead == lat[h] && leads_it(upto(keys.len())[lat[h]]));
    assert(0 <= lead < keys.len() && is_shared(keys, lead));
    assert(c == members(keys, lead));
    let same = |j: int| keys[j] == keys[lead];
    let mat = lemma_filter_places(upto(keys.len()), same);
    assert forall|m: int| 0 <= m < c.len() implies c[m] == #[trigger] mat[m] && keys[c[m]]
        == keys[lead] by {
        assert(upto(keys.len())[mat[m]] == mat[m]);
        assert(same(upto(keys.len())[mat[m]]));
    }
    assert(c =~= mat);
    let at = places_in_files(checks, h);
    let hash = checks[ok[c[k]]].hash->0;
    assert forall|m: int| 0 <= m < c.len() implies checks[ok[#[trigger] c[m]]].hash == Some(hash) by {
        assert(keys[c[m]] == keys[c[k]]);
        assert(checks[ok[c[m]]].hash is Some && checks[ok[c[k]]].hash is Some);
    }
    assert(ascend_below(at, files.len() as int)) by {
        assert forall|m: int, n: int| 0 <= m < n < at.len() implies #[trigger] at[m]
            < #[trigger] at[n] by {
            assert(mat[m] < mat[n]);
            assert(places[c[m]] < places[c[n]]);
        }
        assert forall|m: int| 0 <= m < at.len() implies 0 <= #[trigger] at[m] < files.len() by {
            assert(ok[c[m]] == places[c[m]]);
        }
    }
    assert forall|m: int| 0 <= m < at.len() implies is_file_with_dates(
        group[m],
        files[#[trigger] at[m]],
        checks[at[m]],
    ) && checks[at[m]].hash == Some(hash) by {
        assert(checks[ok[c[m]]].hash == Some(hash));
    }
    assert forall|i: int| 0 <= i < files.len() && (#[trigger] checks[i]).hash == Some(hash) implies
        at.contains(i) by {
        assert(all[i] == i);
        assert(could(all[i]));
        let a = choose|a: int| 0 <= a < places.len() && places[a] == i;
        assert(keys[a] == keys[c[k]]);
        assert(upto(keys.len())[a] == a);
        assert(same(upto(keys.len())[a]));
        let m = choose|m: int| 0 <= m < mat.len() && mat[m] == a;
        assert(at[m] == i);
    }
    let other = choose|j: int| 0 <= j < keys.len() && j != lead && #[trigger] keys[j] == keys[lead];
    assert(upto(keys.len())[other] == other && upto(keys.len())[lead] == lead);
    assert(same(upto(keys.len())[other]) && same(upto(keys.len())[lead]));
    assert(mat.contains(other) && mat.contains(lead));
    let x = choose|x: int| 0 <= x < mat.len() && mat[x] == other;
    let y = choose|y: int| 0 <= y < mat.len() && mat[y] == lead;
    assert(x != y);
}

proof fn lemma_class_has_last_hash(files: Seq<EntryView>, checks: Seq<FileCheck>, h: int)
    requires
        files.len() == checks.len(),
        files.len() > 0,
        files[0].size > 8192,
        0 <= h < confirmed(files, checks).len(),
    ensures
        confirmed(files, checks)[h].len() >= 2,
        exists|at: Seq<int>, hash: u64| #[trigger]
            have_last_hash(at, files, checks, confirmed(files, checks)[h], hash),
{
    let keys = check_keys(checks);
    let lead = leaders(keys)[h];
    let leads_it = |i: int| leads(keys, i);
    let lat = lemma_filter_places(upto(keys.len()), leads_it);
    assert(upto(keys.len())[lat[h]] == lat[h]);
    let same = |j: int| keys[j] == keys[lead];
    let mat = lemma_filter_places(upto(keys.len()), same);
    assert(upto(keys.len())[lead] == lead);
    assert(same(upto(keys.len())[lead]));
    assert(mat.contains(lead));
    assert(classes_of(keys)[h] == members(keys, lead));
    lemma_class_hash(files, checks, h, 0);
}

/// The last comparison ends the scan, with the groups that each group of candidates falls into.
pub proof fn the_last_comparison_ends_the_scan(
    s: StateView,
    answers: Seq<Seq<FileCheck>>,
    fast: Option<u32>,
)
    requires
        s.phase == ScanPhase::FullHashing || s.phase == ScanPhase::Done,
        answers.len() == candidate_groups(s.partial_results).len(),
        forall|g: int|
            0 <= g < answers.len() ==> (#[trigger] answers[g]).len() == candidate_groups(
                s.partial_results,
            )[g].len(),
    ensures
        state_after(s, EventView::Verified(answers)) == (StateView { phase: ScanPhase::Done, ..s }),
        action_after(s, EventView::Verified(answers), fast) matches ActionView::Finished(groups)
            && forall|g: int, h: int|
            0 <= g < answers.len() && 0 <= h < confirmed(
                candidate_groups(s.partial_results)[g],
                answers[g],
            ).len() ==> groups.contains(
                #[trigger] confirmed(candidate_groups(s.partial_results)[g], answers[g])[h],
            ),
{
    let lists = candidate_groups(s.partial_results);
    let groups = found_groups(s.partial_results, answers);
    assert forall|g: int, h: int|
        0 <= g < answers.len() && 0 <= h < confirmed(lists[g], answers[g]).len() implies groups.contains(
        #[trigger] confirmed(lists[g], answers[g])[h],
    ) by {
        assert(checks_of(answers, g, lists[g].len()) =~= answers[g]);
        lemma_upto_holds(lists, answers, lists.len() as int, g, h);
    }
}

proof fn lemma_upto_holds(
    lists: Seq<Seq<EntryView>>,
    answers: Seq<Seq<FileCheck>>,
    k: int,
    g: int,
    h: int,
)
    requires
        0 <= g < k <= lists.len(),
        0 <= h < confirmed(lists[g], checks_of(answers, g, lists[g].len())).len(),
    ensures
        confirmed_upto(lists, answers, k).contains(
            confirmed(lists[g], checks_of(answers, g, lists[g].len()))[h],
        ),
    decreases k,
{
    let before = confirmed_upto(lists, answers, k - 1);
    let own = confirmed(lists[k - 1], checks_of(answers, k - 1, lists[k - 1].len()));
    let all = confirmed_upto(lists, answers, k);
    if g == k - 1 {
        assert(all[before.len() + h] == own[h]);
    } else {
        lemma_upto_holds(lists, answers, k - 1, g, h);
        let x = confirmed(lists[g], checks_of(answers, g, lists[g].len()))[h];
        let i = choose|i: int| 0 <= i < before.len() && before[i] == x;
        assert(all[i] == x);
    }
}

/// Every duplicate that is found carries the path, the size and the dates that were found out.
pub proof fn duplicates_carry_what_was_found(
    files: Seq<EntryView>,
    r: Reading,
    m: int,
    i: int,
)
    requires
        0 <= m < duplicates(files, r).len(),
        0 <= i < duplicates(files, r)[m].len(),
    ensures
        exists|e: EntryView|
            files.contains(e) && #[trigger] is_file_with_dates(
                duplicates(files, r)[m][i],
                e,
                (r.check)(e),
            ),
{
    duplicates_are_genuine(files, r, m);
    let f = duplicates(files, r)[m][i];
    assert(was_found(f, files, r));
    assert(is_file_with_dates(f, entry_in(f), (r.check)(entry_in(f))));
}

// ---------------------------------------------------------------------------
// What is told of a scan
// ---------------------------------------------------------------------------

/// How far a scan has come is told by its stage: the directories and files of the walk, the
/// candidates of a stage of hashing, and else the files and the stage.
pub proof fn scans_are_summed_up(s: StateView)
    ensures
        s.phase == ScanPhase::Walking ==> summary(s) == decimal(s.completed_dirs.len())
            + " dirs, "@ + decimal(s.files.len()) + " files"@,
        s.phase == ScanPhase::HeadHashing ==> summary(s) == "head hash "@ + decimal(
            s.head_idx as nat,
        ) + "/"@ + decimal(s.head_candidates.len()),
        s.phase == ScanPhase::PartialHashing ==> summary(s) == "partial hash "@ + decimal(
            s.partial_idx as nat,
        ) + "/"@ + decimal(s.partial_candidates.len()),
        s.phase == ScanPhase::FullHashing ==> summary(s) == decimal(s.files.len())
            + " files, phase: "@ + "FullHashing"@,
        s.phase == ScanPhase::Done ==> summary(s) == decimal(s.files.len()) + " files, phase: "@
            + "Done"@,
{
}

/// The counters of a scan say how many files were found and directories read, and, in a stage of
/// hashing, how many of its candidates are done.
pub proof fn scans_are_counted(s: StateView, dirs: usize, groups: usize, dupes: usize)
    ensures
        ({
            let p = progress_in(s, dirs, groups, dupes);
            &&& p.files_found == s.files.len() as usize
            &&& p.dirs_done == s.completed_dirs.len() as usize
            &&& p.dirs_total == dirs && p.groups_found == groups && p.dupes_found == dupes
            &&& s.phase == ScanPhase::Walking ==> p.stage == 0 && p.hashed == 0 && p.to_hash == 0
            &&& s.phase == ScanPhase::HeadHashing ==> p.stage == 1 && p.hashed
                == s.head_idx as usize && p.to_hash == s.head_candidates.len() as usize
            &&& s.phase == ScanPhase::PartialHashing ==> p.stage == 2 && p.hashed
                == s.partial_idx as usize && p.to_hash == s.partial_candidates.len() as usize
            &&& s.phase == ScanPhase::FullHashing ==> p.stage == 3
            &&& s.phase == ScanPhase::Done ==> p.stage == 4
        }),
{
}

// ---------------------------------------------------------------------------
// Candidates of the last comparison
// ---------------------------------------------------------------------------

/// The group holds the files at these positions: all with that size and hash of their ends, two or
/// more.
pub open spec fn share_size_and_ends(
    at: Seq<int>,
    results: Seq<HashedView>,
    group: Seq<EntryView>,
    size: u64,
    hash: u64,
) -> bool {
    &&& ascend_below(at, results.len() as int)
    &&& group.len() == at.len() && at.len() >= 2
    &&& forall|k: int|
        0 <= k < at.len() ==> {
            let r = results[#[trigger] at[k]];
            &&& r.size == size && r.hash == hash
            &&& group[k].path == r.path && group[k].written == r.written && group[k].size == r.size
        }
    &&& forall|i: int|
        0 <= i < results.len() && (#[trigger] results[i]).size == size && results[i].hash == hash
            ==> at.contains(i)
}

/// The group holds all files with some size and hash of their ends.
pub open spec fn are_all_of_a_kind(results: Seq<HashedView>, group: Seq<EntryView>) -> bool {
    exists|at: Seq<int>, size: u64, hash: u64| #[trigger]
        share_size_and_ends(at, results, group, size, hash)
}

/// The positions with one key: all of them, two or more, the first of them in front.
proof fn lemma_class(keys: Seq<(u64, u64)>, h: int)
    requires
        0 <= h < classes_of(keys).len(),
    ensures
        ({
            let c = classes_of(keys)[h];
            &&& ascend_below(c, keys.len() as int)
            &&& c.len() >= 2
            &&& c[0] == leaders(keys)[h]
            &&& forall|k: int| 0 <= k < c.len() ==> keys[#[trigger] c[k]] == keys[c[0]]
            &&& forall|i: int|
                0 <= i < keys.len() && #[trigger] keys[i] == keys[c[0]] ==> c.contains(i)
        }),
{
    let all = upto(keys.len());
    let c = classes_of(keys)[h];
    let leads_it = |i: int| leads(keys, i);
    let lat = lemma_filter_places(all, leads_it);
    assert(all[lat[h]] == lat[h]);
    assert(leads_it(all[lat[h]]));
    let lead = leaders(keys)[h];
    assert(lead == lat[h] && leads(keys, lead));
    assert(c == members(keys, lead));
    let same = |j: int| keys[j] == keys[lead];
    let mat = lemma_filter_places(all, same);
    assert forall|m: int| 0 <= m < c.len() implies c[m] == #[trigger] mat[m] && keys[c[m]]
        == keys[lead] by {
        assert(all[mat[m]] == mat[m]);
        assert(same(all[mat[m]]));
    }
    assert(c =~= mat);
    assert forall|i: int| 0 <= i < keys.len() && #[trigger] keys[i] == keys[lead] implies c.contains(
        i,
    ) by {
        assert(all[i] == i);
        assert(same(all[i]));
    }
    assert(c.contains(lead));
    let k = choose|k: int| 0 <= k < c.len() && c[k] == lead;
    if k > 0 {
        assert(c[0] < c[k]);
        assert(keys[c[0]] != keys[lead]);
    }
    let j = choose|j: int| 0 <= j < keys.len() && j != lead && #[trigger] keys[j] == keys[lead];
    assert(c.contains(j));
}

/// The files to compare at last are those that share their size and the hash of their ends with
/// another. They come in groups, each of all files with one size and hash, in their order; the
/// groups come in the order of their first files.
pub proof fn files_with_the_same_ends_are_compared(results: Seq<HashedView>)
    ensures
        forall|g: int|
            0 <= g < candidate_groups(results).len() ==> #[trigger] are_all_of_a_kind(
                results,
                candidate_groups(results)[g],
            ),
        forall|i: int, j: int|
            0 <= i < results.len() && 0 <= j < results.len() && i != j && (#[trigger] results[i]).size
                == (#[trigger] results[j]).size && results[i].hash == results[j].hash ==> exists|
                g: int,
                at: Seq<int>,
            |
                0 <= g < candidate_groups(results).len() && #[trigger] share_size_and_ends(
                    at,
                    results,
                    candidate_groups(results)[g],
                    results[i].size,
                    results[i].hash,
                ),
        exists|firsts: Seq<int>| #[trigger]
            are_led_by(firsts, results, candidate_groups(results)),
{
    let keys = result_keys(results);
    let groups = candidate_groups(results);
    assert forall|g: int| 0 <= g < groups.len() implies #[trigger] are_all_of_a_kind(
        results,
        groups[g],
    ) by {
        let c = classes_of(keys)[g];
        lemma_class_shares(results, g);
        let first = results[c[0]];
        assert(share_size_and_ends(c, results, groups[g], first.size, first.hash));
    }
    assert forall|i: int, j: int|
        0 <= i < results.len() && 0 <= j < results.len() && i != j && (#[trigger] results[i]).size
            == (#[trigger] results[j]).size && results[i].hash == results[j].hash implies exists|
        g: int,
        at: Seq<int>,
    |
        0 <= g < groups.len() && #[trigger] share_size_and_ends(
            at,
            results,
            groups[g],
            results[i].size,
            results[i].hash,
        ) by {
        assert(keys[i] == keys[j]);
        assert(is_shared(keys, i));
        classes_hold_what_is_shared(keys, i);
        let g = choose|g: int| in_class(keys, g, i);
        let c = classes_of(keys)[g];
        lemma_class(keys, g);
        lemma_class_shares(results, g);
        let k = choose|k: int| 0 <= k < c.len() && c[k] == i;
        assert(keys[c[k]] == keys[c[0]]);
        assert(share_size_and_ends(c, results, groups[g], results[i].size, results[i].hash));
    }
    let all = upto(keys.len());
    let leads_it = |i: int| leads(keys, i);
    let lat = lemma_filter_places(all, leads_it);
    assert forall|g: int| 0 <= g < groups.len() implies groups[g].len() > 0 && (
    #[trigger] groups[g])[0] == entry_of(results[lat[g]]) by {
        lemma_class(keys, g);
        assert(all[lat[g]] == lat[g]);
        assert(leaders(keys)[g] == lat[g]);
    }
    assert(are_led_by(lat, results, groups));
}

/// The first files of the groups stand at these positions, which ascend.
pub open spec fn are_led_by(
    firsts: Seq<int>,
    results: Seq<HashedView>,
    groups: Seq<Seq<EntryView>>,
) -> bool {
    &&& ascend_below(firsts, results.len() as int)
    &&& groups.len() == firsts.len()
    &&& forall|g: int|
        0 <= g < groups.len() ==> (#[trigger] groups[g]).len() > 0 && groups[g][0].path
            == results[firsts[g]].path && groups[g][0].written == results[firsts[g]].written
}

proof fn lemma_class_shares(results: Seq<HashedView>, g: int)
    requires
        0 <= g < candidate_groups(results).len(),
    ensures
        ({
            let c = classes_of(result_keys(results))[g];
            share_size_and_ends(
                c,
                results,
                candidate_groups(results)[g],
                results[c[0]].size,
                results[c[0]].hash,
            )
        }),
{
    let keys = result_keys(results);
    let c = classes_of(keys)[g];
    let first = results[c[0]];
    lemma_class(keys, g);
    assert forall|k: int| 0 <= k < c.len() implies results[#[trigger] c[k]].size == first.size
        && results[c[k]].hash == first.hash by {
        assert(keys[c[k]] == keys[c[0]]);
    }
    assert forall|i: int|
        0 <= i < results.len() && (#[trigger] results[i]).size == first.size && results[i].hash
            == first.hash implies c.contains(i) by {
        assert(keys[i] == keys[c[0]]);
    }
}

/// The files that are read again for the last comparison stand at these positions: all of more than
/// 8 KiB that share their size and the hash of their ends with another.
pub open spec fn are_read_again(at: Seq<int>, results: Seq<HashedView>) -> bool {
    &&& ascend_below(at, results.len() as int)
    &&& forall|k: int|
        0 <= k < at.len() ==> results[#[trigger] at[k]].size > 8192 && exists|j: int|
            0 <= j < results.len() && j != at[k] && (#[trigger] results[j]).size
                == results[at[k]].size && results[j].hash == results[at[k]].hash
    &&& forall|i: int, j: int|
        0 <= i < results.len() && 0 <= j < results.len() && i != j && (#[trigger] results[i]).size
            > 8192 && results[i].size == (#[trigger] results[j]).size && results[i].hash
            == results[j].hash ==> at.contains(i)
}

/// At last it is counted how many files are read again.
pub proof fn files_that_are_read_again_are_counted(
    s: StateView,
    dirs: usize,
    groups: usize,
    dupes: usize,
)
    requires
        s.phase == ScanPhase::FullHashing || s.phase == ScanPhase::Done,
    ensures
        progress_in(s, dirs, groups, dupes).hashed == 0,
        exists|at: Seq<int>| #[trigger]
            are_read_again(at, s.partial_results) && progress_in(s, dirs, groups, dupes).to_hash
                == at.len() as usize,
{
    let results = s.partial_results;
    let keys = result_keys(results);
    let entries = result_entries(results);
    let shared = lemma_picked_places(entries, keys);
    let few = same_hashed(results);
    let long = |e: EntryView| e.size > 2 * PARTIAL_HASH_SIZE;
    let js = lemma_filter_places(few, long);
    let at = Seq::new(js.len(), |k: int| shared[js[k]]);
    assert forall|k: int| 0 <= k < at.len() implies results[#[trigger] at[k]].size > 8192 && exists|
        j: int,
    |
        0 <= j < results.len() && j != at[k] && (#[trigger] results[j]).size == results[at[k]].size
            && results[j].hash == results[at[k]].hash by {
        assert(long(few[js[k]]));
        assert(few[js[k]] == entries[shared[js[k]]]);
        let j = choose|j: int|
            0 <= j < entries.len() && j != shared[js[k]] && #[trigger] keys[j]
                == keys[shared[js[k]]];
        assert(results[j].size == results[at[k]].size);
    }
    assert forall|i: int, j: int|
        0 <= i < results.len() && 0 <= j < results.len() && i != j && (#[trigger] results[i]).size
            > 8192 && results[i].size == (#[trigger] results[j]).size && results[i].hash
            == results[j].hash implies at.contains(i) by {
        assert(keys[i] == keys[j]);
        assert(shared.contains(i));
        let m = choose|m: int| 0 <= m < shared.len() && shared[m] == i;
        assert(few[m] == entries[shared[m]]);
        assert(long(few[m]));
        assert(js.contains(m));
        let k = choose|k: int| 0 <= k < js.len() && js[k] == m;
        assert(at[k] == i);
    }
    assert(ascend_below(at, results.len() as int));
    assert(are_read_again(at, results));
}

proof fn lemma_hashed_of_more(files: Seq<EntryView>, hashes: Seq<Option<u64>>, n: int)
    requires
        files.len() <= n <= hashes.len(),
    ensures
        hashed(files, hashes) == hashed(files, hashes.take(n)),
    decreases files.len(),
{
    if files.len() > 0 {
        lemma_hashed_of_more(files.drop_last(), hashes, n);
    }
}

/// Hashes beyond those of the last candidate are of no use.
pub proof fn surplus_hashes_are_ignored(s: StateView, hashes: Seq<Option<u64>>)
    ensures
        s.phase == ScanPhase::HeadHashing && 0 <= s.head_idx <= s.head_candidates.len()
            <= s.head_idx + hashes.len() ==> state_after(s, EventView::Heads(hashes))
            == state_after(
            s,
            EventView::Heads(hashes.take(s.head_candidates.len() - s.head_idx)),
        ),
        s.phase == ScanPhase::PartialHashing && 0 <= s.partial_idx <= s.partial_candidates.len()
            <= s.partial_idx + hashes.len() ==> state_after(s, EventView::Ends(hashes))
            == state_after(
            s,
            EventView::Ends(hashes.take(s.partial_candidates.len() - s.partial_idx)),
        ),
{
    if 0 <= s.head_idx <= s.head_candidates.len() <= s.head_idx + hashes.len() {
        let n = s.head_candidates.len() - s.head_idx;
        lemma_hashed_of_more(remaining(s.head_candidates, s.head_idx).take(n), hashes, n);
    }
    if 0 <= s.partial_idx <= s.partial_candidates.len() <= s.partial_idx + hashes.len() {
        let n = s.partial_candidates.len() - s.partial_idx;
        lemma_hashed_of_more(remaining(s.partial_candidates, s.partial_idx).take(n), hashes, n);
    }
}


// ---------------------------------------------------------------------------
// Events
// ---------------------------------------------------------------------------

/// An event that belongs to another stage changes nothing, and after every event a scan needs what
/// its next state needs, unless the last comparison has ended it.
pub proof fn events_of_other_stages_change_nothing(
    s: StateView,
    event: EventView,
    fast: Option<u32>,
)
    ensures
        event is Nothing ==> state_after(s, event) == s,
        (event is DirRead || event is WalkDone) && s.phase != ScanPhase::Walking ==> state_after(
            s,
            event,
        ) == s,
        event is Heads && s.phase != ScanPhase::HeadHashing ==> state_after(s, event) == s,
        event is Ends && s.phase != ScanPhase::PartialHashing ==> state_after(s, event) == s,
        event is Verified && s.phase != ScanPhase::FullHashing && s.phase != ScanPhase::Done
            ==> state_after(s, event) == s && action_after(s, event, fast) == action_in(s, fast),
        event is Verified && (s.phase == ScanPhase::FullHashing || s.phase == ScanPhase::Done)
            ==> state_after(s, event) == (StateView { phase: ScanPhase::Done, ..s })
            && action_after(s, event, fast) is Finished,
        !(event is Verified) ==> action_after(s, event, fast) == action_in(
            state_after(s, event),
            fast,
        ),
{
}

/// A scan begins with the directories, and nothing is known yet.
pub proof fn scans_begin_with_nothing(root: PathView)
    ensures
        ({
            let s = fresh_state(root);
            &&& s.root == root
            &&& s.phase == ScanPhase::Walking
            &&& forall|dir: Seq<Step>| !s.completed_dirs.contains(dir)
            &&& s.files.len() == 0
            &&& s.head_candidates.len() == 0 && s.head_results.len() == 0 && s.head_idx == 0
            &&& s.partial_candidates.len() == 0 && s.partial_results.len() == 0 && s.partial_idx
                == 0
        }),
{
}


/// What is read at the ends of a file are its first and its last 4 KiB.
pub proof fn ends_are_the_first_and_the_last_bytes(content: Seq<u8>)
    requires
        content.len() <= u64::MAX,
    ensures
        content.len() <= 4096 ==> content_head(content) == content,
        content.len() > 4096 ==> content_head(content) == content.subrange(0, 4096)
            && content_tail(content) == content.subrange(
            content.len() - 4096,
            content.len() as int,
        ),
{
    assert(content.take(content.len() as int) =~= content);
    if content.len() > 4096 {
        assert(content.take(4096) =~= content.subrange(0, 4096));
        assert(content.skip(content.len() - 4096) =~= content.subrange(
            content.len() - 4096,
            content.len() as int,
        ));
    }
}


} // verus!
