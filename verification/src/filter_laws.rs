//! What the filter lets through.
use vstd::prelude::*;

use crate::app::AppView;
use crate::cache::lemma_filter_all;
use crate::keys::{pressed, KeyPress};
use crate::outline::{ascii_filtered, ascii_match, ascii_paths, filtered, matches_filter};
use crate::path::shown_text;
use crate::record::FileView;
use crate::sequence::{ascend_below, lemma_filter_places, lemma_filter_same};
use crate::text::{ascii_lowercase, has_infix, is_ascii_text, lowercase_of, stands_at};
use crate::tree::{numbered, tree_of};

verus! {

// ---------------------------------------------------------------------------
// Which groups are let through
// ---------------------------------------------------------------------------

/// The filter lets a group through if and only if it is empty or stands in the path of a file of
/// the group, both taken in lower case. The groups that it lets through keep their numbers and their
/// order.
pub proof fn groups_with_a_matching_path_are_let_through(
    groups: Seq<Seq<FileView>>,
    filter: Seq<char>,
)
    requires
        groups.len() <= usize::MAX,
    ensures
        exists|at: Seq<int>| #[trigger] are_let_through(at, groups, filter),
{
    let all = numbered(groups);
    let part = filtered(groups, filter);
    let p = |g: (usize, Seq<FileView>)| matches_filter(g.1, filter);
    if filter.len() == 0 {
        let at = Seq::new(groups.len(), |i: int| i);
        assert forall|g: int| 0 <= g < groups.len() implies at.contains(g) by {
            assert(at[g] == g);
        }
        assert(are_let_through(at, groups, filter));
    } else {
        let at = lemma_filter_places(all, p);
        assert forall|k: int| 0 <= k < at.len() implies part[k] == (
            at[k] as usize,
            groups[#[trigger] at[k]],
        ) && in_lower_case(groups[at[k]], filter) by {
            assert(p(all[at[k]]));
        }
        assert forall|g: int| 0 <= g < groups.len() && in_lower_case(#[trigger] groups[g], filter) implies
            at.contains(g) by {
            assert(all[g] == (g as usize, groups[g]));
            let low = lowercase_of(filter);
            let (i, n) = choose|i: int, n: int|
                0 <= i < groups[g].len() && 0 <= n && n + lowercase_of(filter).len()
                    <= lowercase_of(shown_text((#[trigger] groups[g][i]).written)).len()
                    && #[trigger] lowercase_of(shown_text(groups[g][i].written)).subrange(
                    n,
                    n + lowercase_of(filter).len(),
                ) == lowercase_of(filter);
            assert(stands_at(lowercase_of(shown_text(groups[g][i].written)), low, n));
            assert(p(all[g]));
        }
        assert(are_let_through(at, groups, filter));
    }
}

/// The path of a file of the group, in lower case, has the filter in it, in lower case.
pub open spec fn in_lower_case(group: Seq<FileView>, filter: Seq<char>) -> bool {
    exists|i: int, n: int|
        0 <= i < group.len() && 0 <= n && n + lowercase_of(filter).len() <= lowercase_of(
            shown_text((#[trigger] group[i]).written),
        ).len() && #[trigger] lowercase_of(shown_text(group[i].written)).subrange(
            n,
            n + lowercase_of(filter).len(),
        ) == lowercase_of(filter)
}

/// What the filter lets through are the groups at these positions, and those are all that match.
pub open spec fn are_let_through(
    at: Seq<int>,
    groups: Seq<Seq<FileView>>,
    filter: Seq<char>,
) -> bool {
    &&& ascend_below(at, groups.len() as int)
    &&& filtered(groups, filter).len() == at.len()
    &&& forall|k: int|
        0 <= k < at.len() ==> filtered(groups, filter)[k] == (
            at[k] as usize,
            groups[#[trigger] at[k]],
        ) && (filter.len() == 0 || in_lower_case(groups[at[k]], filter))
    &&& forall|g: int|
        0 <= g < groups.len() && (filter.len() == 0 || in_lower_case(#[trigger] groups[g], filter))
            ==> at.contains(g)
}

/// Filters that are the same in lower case let the same through.
pub proof fn the_case_of_the_filter_makes_no_difference(
    groups: Seq<Seq<FileView>>,
    a: Seq<char>,
    b: Seq<char>,
)
    requires
        a.len() > 0,
        b.len() > 0,
        lowercase_of(a) == lowercase_of(b),
    ensures
        filtered(groups, a) == filtered(groups, b),
{
    lemma_filter_same(
        numbered(groups),
        |g: (usize, Seq<FileView>)| matches_filter(g.1, a),
        |g: (usize, Seq<FileView>)| matches_filter(g.1, b),
    );
}

/// Where the paths in two lists of groups are the same in lower case, the groups at the same
/// positions are let through.
pub proof fn the_case_of_the_paths_makes_no_difference(
    one: Seq<Seq<FileView>>,
    other: Seq<Seq<FileView>>,
    filter: Seq<char>,
    g: int,
)
    requires
        one.len() <= usize::MAX,
        one.len() == other.len(),
        0 <= g < one.len(),
        one[g].len() == other[g].len(),
        forall|i: int|
            0 <= i < one[g].len() ==> lowercase_of(shown_text((#[trigger] one[g][i]).written))
                == lowercase_of(shown_text(other[g][i].written)),
    ensures
        filtered(one, filter).contains((g as usize, one[g])) == filtered(other, filter).contains(
            (g as usize, other[g]),
        ),
{
    lemma_let_through(one, filter, g);
    lemma_let_through(other, filter, g);
    if in_lower_case(one[g], filter) {
        let (i, n) = choose|i: int, n: int|
            0 <= i < one[g].len() && 0 <= n && n + lowercase_of(filter).len() <= lowercase_of(
                shown_text((#[trigger] one[g][i]).written),
            ).len() && #[trigger] lowercase_of(shown_text(one[g][i].written)).subrange(
                n,
                n + lowercase_of(filter).len(),
            ) == lowercase_of(filter);
        let f = other[g][i];
        assert(lowercase_of(shown_text(f.written)).subrange(n, n + lowercase_of(filter).len())
            == lowercase_of(filter));
    }
    if in_lower_case(other[g], filter) {
        let (i, n) = choose|i: int, n: int|
            0 <= i < other[g].len() && 0 <= n && n + lowercase_of(filter).len() <= lowercase_of(
                shown_text((#[trigger] other[g][i]).written),
            ).len() && #[trigger] lowercase_of(shown_text(other[g][i].written)).subrange(
                n,
                n + lowercase_of(filter).len(),
            ) == lowercase_of(filter);
        let f = one[g][i];
        assert(lowercase_of(shown_text(f.written)).subrange(n, n + lowercase_of(filter).len())
            == lowercase_of(filter));
    }
}

proof fn lemma_let_through(groups: Seq<Seq<FileView>>, filter: Seq<char>, g: int)
    requires
        groups.len() <= usize::MAX,
        0 <= g < groups.len(),
    ensures
        filtered(groups, filter).contains((g as usize, groups[g])) == (filter.len() == 0
            || in_lower_case(groups[g], filter)),
{
    groups_with_a_matching_path_are_let_through(groups, filter);
    let at = choose|at: Seq<int>| #[trigger] are_let_through(at, groups, filter);
    let part = filtered(groups, filter);
    if filter.len() == 0 || in_lower_case(groups[g], filter) {
        let k = choose|k: int| 0 <= k < at.len() && at[k] == g;
        assert(part[k] == (g as usize, groups[g]));
    }
    if part.contains((g as usize, groups[g])) {
        let k = choose|k: int| 0 <= k < part.len() && part[k] == (g as usize, groups[g]);
        assert(part[k].0 == at[k] as usize);
    }
}

// ---------------------------------------------------------------------------
// ASCII
// ---------------------------------------------------------------------------

/// Where lower case is what it is for ASCII, the filter lets the groups through that have a path
/// with the filter in it once capital letters are made small in both.
pub proof fn ascii_filters_ignore_case(groups: Seq<Seq<FileView>>, filter: Seq<char>)
    requires
        is_ascii_text(filter),
        ascii_paths(groups),
        forall|t: Seq<char>| is_ascii_text(t) ==> #[trigger] lowercase_of(t) == ascii_lowercase(t),
    ensures
        filtered(groups, filter) == ascii_filtered(groups, filter),
{
    let all = numbered(groups);
    let p = |g: (usize, Seq<FileView>)| matches_filter(g.1, filter);
    let q = |g: (usize, Seq<FileView>)| filter.len() == 0 || ascii_match(g.1, filter);
    if filter.len() == 0 {
        lemma_filter_all(all, q);
    } else {
        assert forall|k: int| 0 <= k < all.len() implies p(#[trigger] all[k]) == q(all[k]) by {
            let group = groups[k];
            assert(all[k].1 == group);
            assert forall|i: int| 0 <= i < group.len() implies lowercase_of(
                shown_text((#[trigger] group[i]).written),
            ) == ascii_lowercase(shown_text(group[i].written)) by {
                assert(is_ascii_text(shown_text(groups[k][i].written)));
            }
            assert(lowercase_of(filter) == ascii_lowercase(filter));
        }
        lemma_filter_same(all, p, q);
    }
}

/// A text stands in a path, whatever the case of its letters: some piece of the path is as long and
/// has the same letters, capital or small.
pub open spec fn stands_in_path(f: FileView, text: Seq<char>, n: int) -> bool {
    let path = shown_text(f.written);
    &&& 0 <= n
    &&& n + text.len() <= path.len()
    &&& forall|j: int| 0 <= j < text.len() ==> same_letter(#[trigger] text[j], path[n + j])
}

/// Two ASCII characters that differ at most in case.
pub open spec fn same_letter(a: char, b: char) -> bool {
    ||| a == b
    ||| 'A' <= a <= 'Z' && b as int == a as int + 32
    ||| 'A' <= b <= 'Z' && a as int == b as int + 32
}

/// A group is let through if and only if the filter is empty or stands in the path of one of its
/// files, letter for letter but for the case. So a piece of a path as it is written always lets the
/// group through, and so does one in other case.
pub proof fn pieces_of_paths_are_let_through(
    groups: Seq<Seq<FileView>>,
    filter: Seq<char>,
    g: int,
)
    requires
        is_ascii_text(filter),
        ascii_paths(groups),
        groups.len() <= usize::MAX,
        0 <= g < groups.len(),
    ensures
        ascii_filtered(groups, filter).contains((g as usize, groups[g])) <==> (filter.len() == 0
            || exists|i: int, n: int|
            0 <= i < groups[g].len() && #[trigger] stands_in_path(groups[g][i], filter, n)),
{
    let all = numbered(groups);
    let group = groups[g];
    let q = |x: (usize, Seq<FileView>)| filter.len() == 0 || ascii_match(x.1, filter);
    let at = lemma_filter_places(all, q);
    let part = all.filter(q);
    let low = ascii_lowercase(filter);
    assert(all[g] == (g as usize, group));
    if part.contains(all[g]) {
        let k = choose|k: int| 0 <= k < part.len() && part[k] == all[g];
        assert(part[k] == all[at[k]]);
        assert(q(all[g]));
        if filter.len() > 0 {
            let i = choose|i: int|
                0 <= i < group.len() && has_infix(
                    ascii_lowercase(shown_text((#[trigger] group[i]).written)),
                    low,
                );
            let path = shown_text(group[i].written);
            let n = choose|n: int| #[trigger] stands_at(ascii_lowercase(path), low, n);
            assert forall|j: int| 0 <= j < filter.len() implies same_letter(
                #[trigger] filter[j],
                path[n + j],
            ) by {
                assert(ascii_lowercase(path).subrange(n, n + low.len())[j] == low[j]);
                lemma_same_letter(filter[j], path[n + j]);
            }
            assert(stands_in_path(group[i], filter, n));
        }
    }
    if exists|i: int, n: int|
        0 <= i < group.len() && #[trigger] stands_in_path(group[i], filter, n) {
        let (i, n) = choose|i: int, n: int|
            0 <= i < group.len() && #[trigger] stands_in_path(group[i], filter, n);
        let path = shown_text(group[i].written);
        let piece = ascii_lowercase(path).subrange(n, n + low.len());
        assert forall|j: int| 0 <= j < low.len() implies piece[j] == low[j] by {
            assert(is_ascii_text(shown_text(groups[g][i].written)));
            lemma_same_letter(filter[j], path[n + j]);
            assert(same_letter(filter[j], path[n + j]));
        }
        assert(piece =~= low);
        assert(stands_at(ascii_lowercase(path), low, n));
        assert(ascii_match(group, filter));
    }
    if q(all[g]) {
        assert(at.contains(g));
        let k = choose|k: int| 0 <= k < at.len() && at[k] == g;
        assert(part[k] == all[g]);
    }
}

proof fn lemma_same_letter(a: char, b: char)
    ensures
        same_letter(a, b) <==> ascii_lowercase(seq![a])[0] == ascii_lowercase(seq![b])[0],
{
    let x = ascii_lowercase(seq![a])[0];
    let y = ascii_lowercase(seq![b])[0];
    assert(x as int == if 65 <= a as int <= 90 { a as int + 32 } else { a as int });
    assert(y as int == if 65 <= b as int <= 90 { b as int + 32 } else { b as int });
}

// ---------------------------------------------------------------------------
// While the filter is typed
// ---------------------------------------------------------------------------

/// While the filter is typed, a letter is put at its end, Backspace takes its last one away, Enter
/// ends the typing and keeps it, and Escape ends the typing and clears it. Whatever changes it, the
/// tree is that of the groups that it lets through. No other key does anything, and no key selects
/// or deletes.
pub proof fn the_filter_is_typed(v: AppView, key: KeyPress)
    requires
        v.filtering,
    ensures
        ({
            let (after, effect) = pressed(v, key);
            &&& effect is Nothing
            &&& key matches KeyPress::Char(c) ==> after.filter == v.filter.push(c)
                && after.filtering
            &&& key == KeyPress::Backspace && v.filter.len() > 0 ==> after.filter
                == v.filter.drop_last() && after.filtering
            &&& key == KeyPress::Backspace && v.filter.len() == 0 ==> after.filter == v.filter
                && after.filtering
            &&& key == KeyPress::Esc ==> after.filter.len() == 0 && !after.filtering
            &&& key == KeyPress::Enter ==> after == (AppView { filtering: false, ..v })
            &&& key is Char || key == KeyPress::Backspace || key == KeyPress::Esc ==> after.tree
                == tree_of(filtered(v.groups, after.filter), v.root) && !after.focus_right
            &&& !(key is Char || key == KeyPress::Backspace || key == KeyPress::Esc || key
                == KeyPress::Enter) ==> after == v
            &&& after.groups == v.groups && after.selected_for_delete == v.selected_for_delete
            &&& after.dialog == v.dialog && after.root == v.root && after.sort_mode == v.sort_mode
            &&& after.read_only == v.read_only && after.notification == v.notification
        }),
{
}

} // verus!
