//! What the walk through the directories takes down.
use vstd::prelude::*;

use crate::glob::glob;
use crate::path::Step;
use crate::scanner::{
    dir_recorded, is_compared, item_entry, kept_dir, state_after, DirItem, EntryView, EventView,
    ScanPhase, StateView,
};
use crate::sequence::{ascend_below, lemma_filter_places};

verus! {

// ---------------------------------------------------------------------------
// Directories that are left out
// ---------------------------------------------------------------------------

/// A directory is left out if and only if one of the patterns matches its name, at whatever
/// position it stands.
pub proof fn any_pattern_leaves_out(name: Seq<char>, exclude: Seq<String>)
    ensures
        forall|i: int|
            0 <= i < exclude.len() && glob((#[trigger] exclude[i])@, name) ==> !kept_dir(
                name,
                exclude,
            ),
        (forall|i: int| 0 <= i < exclude.len() ==> !glob((#[trigger] exclude[i])@, name))
            ==> kept_dir(name, exclude),
{
}

/// More patterns leave out what each of them leaves out, and nothing else: neither their order nor
/// how often one is given makes a difference.
pub proof fn patterns_add_up(name: Seq<char>, some: Seq<String>, more: Seq<String>)
    ensures
        kept_dir(name, some + more) <==> kept_dir(name, some) && kept_dir(name, more),
{
    let all = some + more;
    assert forall|i: int| 0 <= i < some.len() implies all[i] == #[trigger] some[i] by {}
    assert forall|i: int| 0 <= i < more.len() implies all[some.len() + i] == #[trigger] more[i] by {}
}

/// A single pattern leaves out what it matches.
pub proof fn one_pattern_leaves_out_what_it_matches(name: Seq<char>, pattern: String)
    ensures
        kept_dir(name, seq![pattern]) <==> !glob(pattern@, name),
        kept_dir(name, seq![]),
{
    assert(seq![pattern][0] == pattern);
}

// ---------------------------------------------------------------------------
// Files that are taken down
// ---------------------------------------------------------------------------

/// The items at the positions in `at` are the files with a known size above zero, all of them, and
/// the entries behind the first `n` of `files` are theirs, in the same order.
pub open spec fn are_their_entries(
    at: Seq<int>,
    items: Seq<DirItem>,
    files: Seq<EntryView>,
    n: int,
) -> bool {
    &&& ascend_below(at, items.len() as int)
    &&& files.len() == n + at.len()
    &&& forall|k: int|
        0 <= k < at.len() ==> {
            let item = items[#[trigger] at[k]];
            &&& item.is_file
            &&& item.size == Some(files[n + k].size)
            &&& files[n + k].size > 0
            &&& files[n + k].path == item.path@
            &&& files[n + k].written == item.path.written@
        }
    &&& forall|i: int|
        0 <= i < items.len() && (#[trigger] items[i]).is_file && items[i].size is Some
            && items[i].size->0 > 0 ==> at.contains(i)
}

/// A directory that was not read before adds an entry for each file in it whose size is known and
/// not zero, however large it is, in the order of the listing, and nothing else; what was taken
/// down before stays.
pub proof fn every_file_is_taken_down(s: StateView, dir: Seq<Step>, items: Seq<DirItem>)
    requires
        !s.completed_dirs.contains(dir),
    ensures
        ({
            let after = dir_recorded(s, dir, Some(items));
            &&& after.completed_dirs == s.completed_dirs.insert(dir)
            &&& after.files.len() >= s.files.len()
            &&& forall|k: int| 0 <= k < s.files.len() ==> #[trigger] after.files[k] == s.files[k]
            &&& exists|at: Seq<int>| #[trigger]
                are_their_entries(at, items, after.files, s.files.len() as int)
            &&& forall|i: int|
                0 <= i < items.len() && (#[trigger] items[i]).is_file && items[i].size is Some
                    && items[i].size->0 > 0 ==> after.files.contains(
                    EntryView {
                        path: items[i].path@,
                        written: items[i].path.written@,
                        size: items[i].size->0,
                    },
                )
            &&& after == (StateView {
                completed_dirs: after.completed_dirs,
                files: after.files,
                ..s
            })
        }),
{
    let after = dir_recorded(s, dir, Some(items));
    let p = |i: DirItem| is_compared(i);
    let n = s.files.len() as int;
    let at = lemma_filter_places(items, p);
    assert forall|i: int|
        0 <= i < items.len() && (#[trigger] items[i]).is_file && items[i].size is Some
            && items[i].size->0 > 0 implies at.contains(i) by {
        assert(p(items[i]));
    }
    assert forall|k: int| 0 <= k < at.len() implies after.files[n + k] == item_entry(
        items[#[trigger] at[k]],
    ) && p(items[at[k]]) by {
        assert(items.filter(p)[k] == items[at[k]]);
    }
    assert(are_their_entries(at, items, after.files, n));
    assert forall|i: int|
        0 <= i < items.len() && (#[trigger] items[i]).is_file && items[i].size is Some
            && items[i].size->0 > 0 implies after.files.contains(
        EntryView {
            path: items[i].path@,
            written: items[i].path.written@,
            size: items[i].size->0,
        },
    ) by {
        let k = choose|k: int| 0 <= k < at.len() && at[k] == i;
        assert(after.files[n + k] == item_entry(items[at[k]]));
    }
}

/// A directory that could not be read counts as read and adds no file; one that was read before
/// changes nothing. What is read once the walk is over changes nothing either.
pub proof fn directories_without_a_listing_add_nothing(
    s: StateView,
    dir: Seq<Step>,
    items: Option<Seq<DirItem>>,
)
    ensures
        dir_recorded(s, dir, None) == (StateView {
            completed_dirs: s.completed_dirs.insert(dir),
            ..s
        }),
        s.completed_dirs.contains(dir) ==> dir_recorded(s, dir, items) == s,
        s.phase == ScanPhase::Walking ==> state_after(s, EventView::DirRead { dir, items })
            == dir_recorded(s, dir, items),
        s.phase != ScanPhase::Walking ==> state_after(s, EventView::DirRead { dir, items }) == s,
{
    if s.completed_dirs.contains(dir) {
        assert(s.completed_dirs.insert(dir) =~= s.completed_dirs);
    }
}

} // verus!
