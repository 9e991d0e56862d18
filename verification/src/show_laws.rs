//! What is shown of the state of the interface.
use vstd::prelude::*;
use vstd::utf8::encode_utf8;

use crate::app::{
    chosen_file, current_rows, right_len, AppView, DeleteErrorButton, DeletionView, DialogButton,
    DialogView, StatusView,
};
use crate::groups::{file_total, held_total, wasted_total};
use crate::path::{text_within, PathView, Step};
use crate::path_set::{is_listing, listing, listing_is_unique};
use crate::record::FileView;
use crate::select_laws::{are_the_copies, file_is_highlighted, lemma_copies};
use crate::size::size_text;
use crate::text::{decimal, lossy_text, middle_cut, middle_cut_fits};
use crate::tree::{file_count, rows, total_size, SortMode};
use crate::view::{
    asked_title, copy_rows, date_or, detailed_copy, dialog_shown, fully_selected, indent, key_hints,
    meta_text, preview_of, size_in_group, size_in_groups, size_note, sizes_at, sizes_fit,
    some_group_fully_selected, status_spans, totals_fit, tree_rows, tree_title, ModelView,
    SpanStyle, SpanView,
};

verus! {

// ---------------------------------------------------------------------------
// The tree
// ---------------------------------------------------------------------------

/// So many blanks.
pub open spec fn blanks(n: nat) -> Seq<char> {
    Seq::new(n, |i: int| ' ')
}

proof fn lemma_indent(depth: nat)
    ensures
        indent(depth) == blanks(2 * depth),
    decreases depth,
{
    reveal_strlit("  ");
    if depth > 0 {
        lemma_indent((depth - 1) as nat);
        assert(indent(depth) =~= blanks(2 * depth));
    } else {
        assert(indent(depth) =~= blanks(0));
    }
}

/// There is one row for each node that is displayed. A file is marked exactly if it is selected, and
/// a directory never is.
pub proof fn selected_files_are_marked(v: AppView, width: u16, i: int)
    requires
        0 <= i < rows(v.tree, v.sort_mode).len(),
    ensures
        tree_rows(v, width).len() == rows(v.tree, v.sort_mode).len(),
        ({
            let node = rows(v.tree, v.sort_mode)[i].1;
            let row = tree_rows(v, width)[i];
            &&& row.style is Marked <==> !node.is_dir && v.selected().contains(node.path)
            &&& row.style is Directory <==> node.is_dir
            &&& row.style is Plain <==> !node.is_dir && !v.selected().contains(node.path)
            &&& row.text.len() > 0
            &&& row.text[0] == '*' <==> !node.is_dir && v.selected().contains(node.path)
        }),
{
    reveal_strlit("*");
    reveal_strlit(" ");
}

/// A directory is shown below its parent by two more blanks, with a sign that tells whether it is
/// expanded, its name, the number of files in it and their bytes.
pub proof fn directories_are_shown_with_their_totals(v: AppView, width: u16, i: int)
    requires
        0 <= i < rows(v.tree, v.sort_mode).len(),
        rows(v.tree, v.sort_mode)[i].1.is_dir,
    ensures
        ({
            let (depth, node) = rows(v.tree, v.sort_mode)[i];
            tree_rows(v, width)[i].text == " "@ + blanks(2 * depth) + (if node.expanded {
                "▼ "@
            } else {
                "▶ "@
            }) + node.name + (" ["@ + decimal(file_count(node)) + ", "@ + size_text(
                total_size(node),
            ) + "]"@)
        }),
{
    lemma_indent(rows(v.tree, v.sort_mode)[i].0);
}

/// A file is shown below its directory by two more blanks, with its name and its size. A name that
/// is too long is cut in the middle, so that the row fits between the borders of the pane, unless
/// there is no room for five characters.
pub proof fn files_are_shown_with_their_size(v: AppView, width: u16, i: int, f: FileView)
    requires
        0 <= i < rows(v.tree, v.sort_mode).len(),
        !rows(v.tree, v.sort_mode)[i].1.is_dir,
        rows(v.tree, v.sort_mode)[i].1.file_info == Some(f),
    ensures
        ({
            let (depth, node) = rows(v.tree, v.sort_mode)[i];
            let text = tree_rows(v, width)[i].text;
            let mark = if v.selected().contains(node.path) {
                "*"@
            } else {
                " "@
            };
            let note = " ["@ + size_text(f.size as nat) + "]"@;
            let inner = if width >= 2 {
                width - 2
            } else {
                0
            };
            let left = inner - (3 + 2 * depth + note.len());
            &&& encode_utf8(node.name).len() <= left || left < 5 || node.name.len() <= left ==> text
                == mark + blanks(2 * depth) + "  "@ + node.name + note
            &&& encode_utf8(node.name).len() > left && 5 <= left < node.name.len() ==> text.len()
                == inner && text.take(3 + 2 * depth as int) == mark + blanks(2 * depth) + "  "@
                && text.skip(text.len() - note.len()) == note && (exists|n: nat| #[trigger]
                is_cut(text.subrange(3 + 2 * depth as int, text.len() - note.len()), node.name, n))
        }),
{
    let (depth, node) = rows(v.tree, v.sort_mode)[i];
    lemma_indent(depth);
    reveal_strlit("*");
    reveal_strlit(" ");
    reveal_strlit("  ");
    let text = tree_rows(v, width)[i].text;
    let mark = if v.selected().contains(node.path) {
        "*"@
    } else {
        " "@
    };
    let note = " ["@ + size_text(f.size as nat) + "]"@;
    let inner = if width >= 2 {
        width - 2
    } else {
        0
    };
    let left = inner - (3 + 2 * depth + note.len());
    assert(size_note(node) == note);
    if encode_utf8(node.name).len() > left && 5 <= left < node.name.len() {
        middle_cut_fits(node.name, left as nat);
        let cut = middle_cut(node.name, left as nat);
        let head = mark + blanks(2 * depth) + "  "@;
        assert(text == head + cut + note);
        assert(text.take(3 + 2 * depth as int) =~= head);
        assert(text.skip(text.len() - note.len()) =~= note);
        assert(text.subrange(3 + 2 * depth as int, text.len() - note.len()) =~= cut);
        let n = ((left - 1) / 2) as nat;
        assert(cut[n as int] == '\u{2026}') by {
            assert(cut == node.name.take(n as int).push('\u{2026}') + node.name.skip(
                node.name.len() - (left - 1 - n),
            ));
        }
        assert(cut.skip(n as int + 1).len() == left - 1 - n);
        assert(is_cut(cut, node.name, n));
    }
}

/// `cut` is `name` with an ellipsis in the middle: the first `n` characters stand before it, and as
/// many or one more of the last ones behind it.
pub open spec fn is_cut(cut: Seq<char>, name: Seq<char>, n: nat) -> bool {
    let tail = cut.len() - n - 1;
    &&& n <= tail <= n + 1
    &&& tail <= name.len()
    &&& cut.take(n as int) == name.take(n as int)
    &&& cut[n as int] == '\u{2026}'
    &&& cut.skip(n as int + 1) == name.skip(name.len() - tail)
}

/// The filter stands in the title of the tree while it is typed.
pub proof fn the_filter_is_shown_while_it_is_typed(v: AppView)
    ensures
        v.filtering ==> tree_title(v) == " Duplicates [/"@ + v.filter + "] "@,
        !v.filtering ==> tree_title(v) == " Duplicates "@,
{
}

// ---------------------------------------------------------------------------
// The copies
// ---------------------------------------------------------------------------

/// Where a file is highlighted in the tree it comes first among the copies, and each file of its
/// group at another path follows, in the order of the group, with its path as seen from the root.
/// Those are marked that are selected.
pub proof fn all_copies_are_listed(v: AppView, i: int, f: FileView, g: int, at: Seq<int>)
    requires
        file_is_highlighted(v, i, f, g),
        are_the_copies(at, v.groups[g], f.path),
    ensures
        copy_rows(v).len() == 1 + at.len(),
        right_len(v) == 1 + at.len(),
        copy_rows(v)[0].style is Marked <==> v.selected().contains(f.path),
        copy_rows(v)[0].style is Chosen <==> !v.selected().contains(f.path),
        copy_rows(v)[0].text == if v.selected().contains(f.path) {
            "* "@ + "[<<] "@ + text_within(f.full_path(), v.root.steps)
        } else {
            "[<<] "@ + text_within(f.full_path(), v.root.steps)
        },
        forall|k: int|
            0 <= k < at.len() ==> {
                let c = v.groups[g][#[trigger] at[k]];
                let marked = v.selected().contains(c.path);
                &&& copy_rows(v)[k + 1].style is Marked <==> marked
                &&& copy_rows(v)[k + 1].style is Plain <==> !marked
                &&& copy_rows(v)[k + 1].text == (if marked {
                    "* "@
                } else {
                    "  "@
                }) + text_within(c.full_path(), v.root.steps)
            },
{
    lemma_copies(at, v.groups[g], f.path);
    assert(chosen_file(v) == Some((f, rows(v.tree, v.sort_mode)[i].1.group_index->0)));
    assert(Seq::<char>::empty() + "[<<] "@ + text_within(f.full_path(), v.root.steps)
        =~= "[<<] "@ + text_within(f.full_path(), v.root.steps));
}

/// No copies are listed where no file is highlighted in the tree.
pub proof fn no_file_no_copies(v: AppView)
    requires
        forall|i: int|
            0 <= i < rows(v.tree, v.sort_mode).len() && v.left == Some(i as usize) ==> (#[trigger] rows(
                v.tree,
                v.sort_mode,
            )[i]).1.file_info is None,
    ensures
        copy_rows(v).len() == 0,
        right_len(v) == 0,
{
    if v.left is Some && v.left->0 < rows(v.tree, v.sort_mode).len() {
        assert(rows(v.tree, v.sort_mode)[v.left->0 as int].1.file_info is None);
    }
}

/// The details are those of the copy in the highlighted row, or of the first where the file itself
/// is highlighted.
pub proof fn details_are_of_the_highlighted_copy(
    v: AppView,
    f: FileView,
    g: usize,
    at: Seq<int>,
)
    requires
        g < v.groups.len(),
        are_the_copies(at, v.groups[g as int], f.path),
    ensures
        (v.right is None || v.right == Some(0usize)) && at.len() > 0 ==> detailed_copy(v, f, g)
            == Some(v.groups[g as int][at[0]]),
        (v.right matches Some(r) && 0 < r <= at.len()) ==> detailed_copy(v, f, g) == Some(
            v.groups[g as int][at[v.right->0 - 1]],
        ),
        at.len() == 0 ==> detailed_copy(v, f, g) is None,
{
    lemma_copies(at, v.groups[g as int], f.path);
}

/// A text is shown of the first bytes of a file unless one of them is zero.
pub proof fn files_with_zero_bytes_are_not_shown(bytes: Seq<u8>)
    ensures
        preview_of(bytes) is None <==> (exists|i: int| 0 <= i < bytes.len() && bytes[i] == 0),
        preview_of(bytes) is Some ==> preview_of(bytes) == Some(lossy_text(bytes)),
{
}

/// The size and the dates are told; a date that is not known is told so.
pub proof fn sizes_and_dates_are_told(size: u64, created: String, modified: String)
    ensures
        meta_text(size, Some(created), Some(modified)) == "  Size: "@ + size_text(size as nat)
            + "  |  Created: "@ + created@ + "  |  Modified: "@ + modified@,
        meta_text(size, None, Some(modified)) == "  Size: "@ + size_text(size as nat)
            + "  |  Created: "@ + "N/A"@ + "  |  Modified: "@ + modified@,
        meta_text(size, Some(created), None) == "  Size: "@ + size_text(size as nat)
            + "  |  Created: "@ + created@ + "  |  Modified: "@ + "N/A"@,
{
}

/// A date that is known is shown, and else the one that was found.
pub proof fn known_dates_are_shown(known: i128, found: Option<i128>)
    ensures
        date_or(Some(known), found) == Some(known),
        date_or(None, found) == found,
{
}

// ---------------------------------------------------------------------------
// The status bar
// ---------------------------------------------------------------------------

/// Every file of the group is selected.
pub open spec fn none_would_be_left(v: AppView, g: int) -> bool {
    forall|i: int|
        0 <= i < v.groups[g].len() ==> v.selected().contains((#[trigger] v.groups[g][i]).path)
}

/// Some part of the status bar is shown in that style.
pub open spec fn has_span(spans: Seq<SpanView>, style: SpanStyle) -> bool {
    exists|i: int| 0 <= i < spans.len() && (#[trigger] spans[i]).style == style
}

/// There is a warning exactly where all files of some group are selected, in the status bar and in
/// the title of the delete dialog.
pub proof fn it_is_warned_where_no_copy_would_be_left(v: AppView)
    ensures
        v.notification is None ==> (has_span(status_spans(v), SpanStyle::Warning) <==> exists|g: int|
            0 <= g < v.groups.len() && #[trigger] none_would_be_left(v, g)),
        (exists|g: int| 0 <= g < v.groups.len() && #[trigger] none_would_be_left(v, g))
            ==> asked_title(v) == " ⚠ Move to trash? (ALL copies selected!) "@,
        !(exists|g: int| 0 <= g < v.groups.len() && #[trigger] none_would_be_left(v, g))
            ==> asked_title(v) == " Move to trash? "@,
{
    assert forall|g: int| 0 <= g < v.groups.len() implies (#[trigger] none_would_be_left(v, g)
        <==> fully_selected(v.groups[g], v.selected())) by {}
    let some = exists|g: int| 0 <= g < v.groups.len() && #[trigger] none_would_be_left(v, g);
    if some {
        let g = choose|g: int| 0 <= g < v.groups.len() && #[trigger] none_would_be_left(v, g);
        assert(fully_selected(v.groups[g], v.selected()));
    }
    if some_group_fully_selected(v) {
        let g = choose|g: int|
            0 <= g < v.groups.len() && fully_selected(#[trigger] v.groups[g], v.selected());
        assert(none_would_be_left(v, g));
        if v.notification is None {
            assert(status_spans(v)[5].style == SpanStyle::Warning);
        }
    }
    assert(some == some_group_fully_selected(v));
}

/// A notification takes the place of all else in the status bar.
pub proof fn notifications_are_shown_alone(v: AppView, note: Seq<char>)
    requires
        v.notification == Some(note),
    ensures
        status_spans(v).len() == 1,
        status_spans(v)[0].text == " ✓ "@ + note,
        status_spans(v)[0].style is Notification,
{
}

/// Else the status bar tells how many groups and files there are, how many bytes they take up and
/// how many of those are wasted, how many files are selected and their bytes, whether nothing may be
/// changed, and in which order the tree is shown.
pub proof fn the_status_bar_tells_the_totals(v: AppView)
    requires
        v.notification is None,
    ensures
        ({
            let s = status_spans(v);
            let n = v.selected().len();
            let end = s.len() as int;
            &&& 7 <= end <= 8
            &&& s[0].text == " "@ + decimal(v.groups.len()) + " groups, "@ + decimal(
                file_total(v.groups),
            ) + " dupes"@
            &&& s[0].style is Stats
            &&& s[2].text == "Total:"@ + size_text(held_total(v.groups)) + " Wasted:"@ + size_text(
                wasted_total(v.groups) as nat,
            )
            &&& s[2].style is Sizes
            &&& n > 0 ==> s[4].style is Selection && s[4].text == decimal(n) + " sel ("@
                + size_text(sizes_at(v.groups, listing(v.selected()))) + ")"@
            &&& n == 0 ==> s[4].style is NoSelection && s[4].text == decimal(0) + " sel"@
            &&& s[end - 2].style is ReadOnly
            &&& v.read_only ==> s[end - 2].text == " [RO]"@
            &&& !v.read_only ==> s[end - 2].text.len() == 0
            &&& s[end - 1].style is Sort
            &&& s[end - 1].text == "  Sort:"@ + (match v.sort_mode {
                SortMode::Name => "name"@,
                SortMode::Size => "size"@,
                SortMode::Date => "date"@,
                SortMode::Count => "count"@,
            })
        }),
{
    reveal_strlit("");
}

/// The size that is found for a path is that of a file with that path; none is found where there is
/// no such file.
pub proof fn sizes_are_those_of_the_files(groups: Seq<Seq<FileView>>, path: Seq<Step>)
    ensures
        match size_in_groups(groups, path) {
            Some(n) => exists|g: int, i: int|
                0 <= g < groups.len() && 0 <= i < groups[g].len() && (#[trigger] groups[g][i]).path
                    == path && groups[g][i].size == n,
            None => forall|g: int, i: int|
                0 <= g < groups.len() && 0 <= i < groups[g].len() ==> (#[trigger] groups[g][i]).path
                    != path,
        },
    decreases groups.len(),
{
    if groups.len() > 0 {
        let before = groups.drop_last();
        sizes_are_those_of_the_files(before, path);
        lemma_size_in_group(groups.last(), path);
        match size_in_groups(before, path) {
            Some(n) => {
                let (g, i) = choose|g: int, i: int|
                    0 <= g < before.len() && 0 <= i < before[g].len() && (#[trigger] before[g][i]).path
                        == path && before[g][i].size == n;
                assert(groups[g][i] == before[g][i]);
            },
            None => {
                let last = groups.len() - 1;
                match size_in_group(groups.last(), path) {
                    Some(n) => {
                        let i = choose|i: int|
                            0 <= i < groups.last().len() && (#[trigger] groups.last()[i]).path
                                == path && groups.last()[i].size == n;
                        assert(groups[last][i].path == path);
                    },
                    None => {
                        assert forall|g: int, i: int|
                            0 <= g < groups.len() && 0 <= i < groups[g].len() implies (
                        #[trigger] groups[g][i]).path != path by {
                            if g < last {
                                assert(before[g][i] == groups[g][i]);
                            } else {
                                assert(groups.last()[i] == groups[g][i]);
                            }
                        }
                    },
                }
            },
        }
    }
}

proof fn lemma_size_in_group(group: Seq<FileView>, path: Seq<Step>)
    ensures
        match size_in_group(group, path) {
            Some(n) => exists|i: int|
                0 <= i < group.len() && (#[trigger] group[i]).path == path && group[i].size == n,
            None => forall|i: int| 0 <= i < group.len() ==> (#[trigger] group[i]).path != path,
        },
    decreases group.len(),
{
    if group.len() > 0 {
        let before = group.drop_last();
        lemma_size_in_group(before, path);
        match size_in_group(before, path) {
            Some(n) => {
                let i = choose|i: int|
                    0 <= i < before.len() && (#[trigger] before[i]).path == path && before[i].size
                        == n;
                assert(group[i] == before[i]);
            },
            None => {
                assert(group[group.len() - 1] == group.last());
                assert forall|i: int| 0 <= i < before.len() implies (#[trigger] group[i]).path
                    != path by {
                    assert(before[i] == group[i]);
                }
            },
        }
    }
}

/// Each selected path adds the size of its file to the bytes of the selection.
pub proof fn each_selected_file_adds_its_size(
    groups: Seq<Seq<FileView>>,
    paths: Seq<Seq<Step>>,
    path: Seq<Step>,
)
    ensures
        sizes_at(groups, seq![]) == 0,
        (size_in_groups(groups, path) matches Some(n) ==> sizes_at(groups, paths.push(path))
            == sizes_at(groups, paths) + n),
        size_in_groups(groups, path) is None ==> sizes_at(groups, paths.push(path)) == sizes_at(
            groups,
            paths,
        ),
{
    assert(paths.push(path).drop_last() =~= paths);
}

/// The keys that are named are those of the pane with the focus.
pub proof fn hints_are_those_of_the_pane(v: AppView)
    ensures
        v.focus_right ==> key_hints(v)
            == " [Space]Sel [x]KeepOne [a]SelAll [i]Invert [g]Goto [d]Del [o]Open [Tab]Pane [/]Filter [p]Preview [q]Quit"@,
        !v.focus_right ==> key_hints(v)
            == " [Space]Sel [a]SelDir [x]KeepOne [i]Invert [u]Desel [c]Collapse [e]Expand [s]Sort [d]Del [o]Open [E]Export [Tab]Pane [/]Filter [p]Preview [q]Quit"@,
{
}

// ---------------------------------------------------------------------------
// The dialogs
// ---------------------------------------------------------------------------

/// It is asked about every selected file, and about no other, in ascending order of their paths, as
/// seen from the root.
pub proof fn every_selected_file_is_asked_about(
    v: AppView,
    scroll: Option<usize>,
    button: DialogButton,
    all: Seq<Seq<Step>>,
)
    requires
        v.dialog == (DialogView::ConfirmDelete { scroll, button }),
        is_listing(all, v.selected()),
    ensures
        match dialog_shown(v) {
            ModelView::ConfirmDelete { title, lines, delete_label, scroll: s, button: b } => {
                &&& lines.len() == all.len()
                &&& forall|i: int|
                    0 <= i < all.len() ==> #[trigger] lines[i] == "  "@ + text_within(
                        PathView { steps: all[i], written: v.selected_for_delete[all[i]] },
                        v.root.steps,
                    )
                &&& delete_label == " [ Delete "@ + decimal(v.selected().len())
                    + " permanently ] "@
                &&& title == asked_title(v)
                &&& s == scroll
                &&& b == button
            },
            _ => false,
        },
{
    listing_is_unique(all, v.selected());
}

/// While files are deleted each is shown with what became of it; the one that is dealt with next is
/// pointed at.
pub proof fn every_file_is_shown_with_what_became_of_it(
    v: AppView,
    job: DeletionView,
    scroll: Option<usize>,
)
    requires
        v.dialog == (DialogView::Deleting { job, scroll }),
    ensures
        match dialog_shown(v) {
            ModelView::Deleting { title, rows, label, scroll: s, current, total } => {
                &&& rows.len() == job.items.len()
                &&& forall|i: int|
                    0 <= i < job.items.len() ==> {
                        let row = #[trigger] rows[i];
                        let path = text_within(job.items[i].0, v.root.steps);
                        &&& i == job.current ==> row.text == "►"@ + " "@ + path
                        &&& i != job.current ==> match job.items[i].1 {
                            StatusView::Pending => row.text == "○"@ + " "@ + path,
                            StatusView::Done => row.text == "✓"@ + " "@ + path,
                            StatusView::Failed(_) => row.text == "✗"@ + " "@ + path,
                            StatusView::Skipped => row.text == "–"@ + " "@ + path,
                        }
                        &&& match job.items[i].1 {
                            StatusView::Pending => row.style is Pending,
                            StatusView::Done => row.style is Done,
                            StatusView::Failed(_) => row.style is Failed,
                            StatusView::Skipped => row.style is Skipped,
                        }
                    }
                &&& job.current >= job.items.len() ==> title == " Delete complete "@
                &&& job.current < job.items.len() ==> title == " Deleting... (ESC to cancel) "@
                &&& label == decimal(job.current as nat) + "/"@ + decimal(job.items.len())
                &&& current == job.current
                &&& total == job.items.len()
                &&& s == scroll
            },
            _ => false,
        },
{
}

/// The other dialogs tell which file could not be deleted and why, how many files are selected, or
/// what went wrong.
pub proof fn dialogs_tell_what_is_asked(
    v: AppView,
    job: DeletionView,
    error: Seq<char>,
    choice: DeleteErrorButton,
    texts: Seq<Seq<char>>,
)
    ensures
        v.dialog == (DialogView::DeleteError { job, error, choice }) ==> (dialog_shown(
            v,
        ) matches ModelView::DeleteError { lines, choice: c } && c == choice && lines.len() == 4
            && lines[0].len() == 0 && lines[1] == "  File: "@ + text_within(
            job.items[job.current].0,
            v.root.steps,
        ) && lines[2] == "  Error: "@ + error && lines[3].len() == 0),
        v.dialog is ConfirmQuit ==> (dialog_shown(v) matches ModelView::ConfirmQuit { lines }
            && lines.len() == 4 && lines[0].len() == 0 && lines[1] == "  "@ + decimal(
            v.selected().len(),
        ) + " file(s) selected but not deleted."@ && lines[2].len() == 0 && lines[3]
            == "  Quit anyway? [y]es / [any key] cancel"@),
        v.dialog == DialogView::Error(texts) ==> (dialog_shown(v) matches ModelView::Error { lines }
            && lines == texts),
        v.dialog is Closed ==> dialog_shown(v) is Closed,
{
}

// ---------------------------------------------------------------------------
// What fits
// ---------------------------------------------------------------------------

/// Everything is shown as long as the totals fit in 64 bits.
pub proof fn totals_are_shown_where_they_fit(v: AppView)
    ensures
        totals_fit(v) <==> held_total(v.groups) <= 0xffff_ffff_ffff_ffff && sizes_at(
            v.groups,
            listing(v.selected()),
        ) <= 0xffff_ffff_ffff_ffff,
        sizes_fit(v) <==> forall|i: int|
            0 <= i < rows(v.tree, v.sort_mode).len() ==> total_size(
                (#[trigger] rows(v.tree, v.sort_mode)[i]).1,
            ) <= 0xffff_ffff_ffff_ffff,
{
    assert(current_rows(v) == rows(v.tree, v.sort_mode));
    assert forall|i: int| 0 <= i < rows(v.tree, v.sort_mode).len() && sizes_fit(v) implies total_size(
        (#[trigger] rows(v.tree, v.sort_mode)[i]).1,
    ) <= 0xffff_ffff_ffff_ffff by {
        assert(total_size(current_rows(v)[i].1) <= u64::MAX);
    }
}


} // verus!
