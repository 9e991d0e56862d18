//! What is stored, where, and what is taken up again.
use vstd::prelude::*;
use vstd::utf8::encode_utf8;

use crate::cache::{
    cached, has_several, probe_at, restored, restored_all, restored_group, CachedView, FileProbe,
};
use crate::grouping::upto;
use crate::hash::xxh3_64_of;
use crate::location::{store_dir, store_file};
use crate::path::{full_join_text, PathView};
use crate::record::FileView;
use crate::sequence::{ascend_below, lemma_filter_places};
use crate::text::{digit_char, lossy_text, numeral};

verus! {

// ---------------------------------------------------------------------------
// Where
// ---------------------------------------------------------------------------

/// Everything is stored in `.dupfinder` in the home directory, in files that are called by the hash
/// of the path of their root, as it is written, in hexadecimal digits.
pub proof fn files_are_called_by_the_hash_of_their_root(
    home: PathView,
    root: PathView,
    ending: Seq<char>,
)
    ensures
        store_dir(home) == full_join_text(home, ".dupfinder"@),
        store_file(home, root, ending) == full_join_text(
            full_join_text(home, ".dupfinder"@),
            numeral(xxh3_64_of(encode_utf8(lossy_text(root.written))) as nat, 16) + ending,
        ),
{
}

/// A digit more at the end of a numeral multiplies the number by the base and adds the digit. So a
/// numeral tells its number.
pub proof fn numerals_grow_by_digits(n: nat, base: nat, d: nat)
    requires
        2 <= base <= 16,
        0 < n,
        d < base,
    ensures
        numeral(n * base + d, base) == numeral(n, base).push(digit_char(d as int)),
        numeral(d, base) == seq![digit_char(d as int)],
        d < 10 ==> digit_char(d as int) as int == '0' as int + d,
        d >= 10 ==> digit_char(d as int) as int == 'a' as int + d - 10,
{
    let m = n * base + d;
    assert(m >= base && m / base == n && m % base == d) by (nonlinear_arith)
        requires
            m == n * base + d,
            d < base,
            n >= 1,
            base >= 2,
    ;
}

// ---------------------------------------------------------------------------
// What
// ---------------------------------------------------------------------------

/// Of results their root and, for each group, the size of its first file and the paths of all its
/// files are stored, in their order.
pub proof fn all_paths_are_stored(root: PathView, groups: Seq<Seq<FileView>>)
    ensures
        cached(root, groups).root == root,
        cached(root, groups).groups.len() == groups.len(),
        forall|g: int|
            0 <= g < groups.len() ==> (#[trigger] cached(root, groups).groups[g]).size
                == groups[g][0].size && cached(root, groups).groups[g].paths.len()
                == groups[g].len(),
        forall|g: int, i: int|
            0 <= g < groups.len() && 0 <= i < groups[g].len() ==> (#[trigger] cached(
                root,
                groups,
            ).groups[g].paths[i]).steps == groups[g][i].path && cached(
                root,
                groups,
            ).groups[g].paths[i].written == groups[g][i].written,
{
}

/// There was something at path `i` of group `g` when it was looked for.
pub open spec fn is_there(probes: Seq<Seq<FileProbe>>, g: int, i: int) -> bool {
    0 <= g < probes.len() && 0 <= i < probes[g].len() && probes[g][i].exists
}

/// The group holds the files at these positions of a stored group: all that are there, with the
/// size of the group and the dates that they have by now.
pub open spec fn are_there(
    at: Seq<int>,
    stored: CachedView,
    probes: Seq<Seq<FileProbe>>,
    g: int,
    group: Seq<FileView>,
) -> bool {
    &&& ascend_below(at, stored.paths.len() as int)
    &&& group.len() == at.len()
    &&& forall|k: int|
        0 <= k < at.len() ==> {
            &&& is_there(probes, g, #[trigger] at[k])
            &&& group[k].path == stored.paths[at[k]].steps
            &&& group[k].written == stored.paths[at[k]].written
            &&& group[k].size == stored.size
            &&& group[k].created == probes[g][at[k]].created
            &&& group[k].modified == probes[g][at[k]].modified
        }
    &&& forall|i: int|
        0 <= i < stored.paths.len() && #[trigger] is_there(probes, g, i) ==> at.contains(i)
}

/// The groups are those at these positions of the stored ones: all of which two files or more are
/// still there.
pub open spec fn are_left_of(
    at: Seq<int>,
    stored: Seq<CachedView>,
    probes: Seq<Seq<FileProbe>>,
    groups: Seq<Seq<FileView>>,
) -> bool {
    &&& ascend_below(at, stored.len() as int)
    &&& groups.len() == at.len()
    &&& forall|h: int|
        0 <= h < at.len() ==> (#[trigger] groups[h]).len() >= 2 && exists|ks: Seq<int>| #[trigger]
            are_there(ks, stored[at[h]], probes, at[h], groups[h])
    &&& forall|g: int, i: int, j: int|
        0 <= g < stored.len() && 0 <= i < j < stored[g].paths.len() && #[trigger] is_there(
            probes,
            g,
            i,
        ) && #[trigger] is_there(probes, g, j) ==> at.contains(g)
}

/// Of stored results the files are taken up again that are still there, in the groups of which two
/// or more are; a file that was not looked for counts as gone.
pub proof fn what_is_there_is_taken_up(stored: Seq<CachedView>, probes: Seq<Seq<FileProbe>>)
    ensures
        exists|at: Seq<int>| #[trigger]
            are_left_of(at, stored, probes, restored(stored, probes)),
{
    let all = restored_all(stored, probes);
    let left = restored(stored, probes);
    let at = lemma_filter_places(all, has_several());
    assert forall|h: int| 0 <= h < at.len() implies (#[trigger] left[h]).len() >= 2 && exists|
        ks: Seq<int>,
    | #[trigger] are_there(ks, stored[at[h]], probes, at[h], left[h]) by {
        assert(left[h] == all[at[h]]);
        assert(has_several()(all[at[h]]));
        let ks = lemma_restored_places(stored[at[h]], probes, at[h]);
        assert(are_there(ks, stored[at[h]], probes, at[h], left[h]));
    }
    assert forall|g: int, i: int, j: int|
        0 <= g < stored.len() && 0 <= i < j < stored[g].paths.len() && #[trigger] is_there(
            probes,
            g,
            i,
        ) && #[trigger] is_there(probes, g, j) implies at.contains(g) by {
        let ks = lemma_restored_places(stored[g], probes, g);
        assert(ks.contains(i) && ks.contains(j));
        let a = choose|a: int| 0 <= a < ks.len() && ks[a] == i;
        let b = choose|b: int| 0 <= b < ks.len() && ks[b] == j;
        assert(all[g].len() > 1);
        assert(has_several()(all[g]));
    }
    assert(are_left_of(at, stored, probes, left));
}

proof fn lemma_restored_places(stored: CachedView, probes: Seq<Seq<FileProbe>>, g: int) -> (ks: Seq<
    int,
>)
    ensures
        are_there(ks, stored, probes, g, restored_group(stored, probes, g)),
{
    let all = upto(stored.paths.len());
    let p = |i: int| probe_at(probes, g, i).exists;
    let ks = lemma_filter_places(all, p);
    let group = restored_group(stored, probes, g);
    assert forall|k: int| 0 <= k < ks.len() implies all.filter(p)[k] == #[trigger] ks[k]
        && is_there(probes, g, ks[k]) by {
        assert(all[ks[k]] == ks[k]);
        assert(p(all[ks[k]]));
    }
    assert forall|i: int| 0 <= i < stored.paths.len() && #[trigger] is_there(probes, g, i) implies
        ks.contains(i) by {
        assert(all[i] == i);
        assert(p(all[i]));
    }
    ks
}

} // verus!
