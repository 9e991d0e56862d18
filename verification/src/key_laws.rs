//! What each key and the mouse do.
use vstd::prelude::*;

use crate::app::{
    at_bottom, at_top, moved_down, moved_up, page_rows, target, AppView, DeleteErrorButton,
    DeletionView, DialogButton, DialogView,
};
use crate::deletion::{delete_asked, delete_begun, synced};
use crate::groups::sorted_groups;
use crate::keys::{
    moused, opened, pressed, preview_checked, wanted_preview, EffectView, KeyPress, MouseAction,
    OutcomeView,
};
use crate::outline::{
    collapsed, expanded, filtered, initial, rebuilt, resorted, row_of, shown_in_tree,
};
use crate::path::{full_join_text, path_parent, shown_text, PathView, Step};
use crate::record::FileView;
use crate::report::csv_report;
use crate::select_laws::{
    are_the_copies, copy_is_highlighted, file_is_highlighted, lemma_copies, row_is_highlighted,
    takes_keys,
};
use crate::selection::toggled_dir;
use crate::text::{lossy_text, trim};
use crate::tree::{all_set, numbered, rows, tree_of, NodeView, SortMode};

verus! {

// ---------------------------------------------------------------------------
// Moving
// ---------------------------------------------------------------------------

/// The lesser of two numbers.
pub open spec fn lesser(a: int, b: int) -> int {
    if a < b {
        a
    } else {
        b
    }
}

/// How far a page reaches: the height of the terminal less twelve rows, but five rows at least.
pub open spec fn page_of(height: u16) -> int {
    if height - 12 > 5 {
        height - 12
    } else {
        5
    }
}

/// By how many rows a key moves the highlight; upwards it is less than zero.
pub open spec fn rows_moved(v: AppView, key: KeyPress) -> Option<int> {
    match key {
        KeyPress::Down => Some(1),
        KeyPress::Up => Some(-1),
        KeyPress::PageDown => Some(page_of(v.terminal_height)),
        KeyPress::PageUp => Some(-page_of(v.terminal_height)),
        KeyPress::Char(c) => if c == 'j' {
            Some(1)
        } else if c == 'k' {
            Some(-1)
        } else {
            None
        },
        _ => None,
    }
}

/// In the tree, a key that moves the highlight moves it by its number of rows, but neither beyond
/// the last row nor before the first; where no row was highlighted, the first is. The copies are
/// those of the new row, with the first of them highlighted, and the preview is given up.
pub proof fn keys_move_through_the_tree(v: AppView, key: KeyPress)
    requires
        takes_keys(v),
        !v.focus_right,
        rows_moved(v, key) is Some,
        rows(v.tree, v.sort_mode).len() <= usize::MAX,
    ensures
        ({
            let len = rows(v.tree, v.sort_mode).len() as int;
            let by = rows_moved(v, key)->0;
            let after = pressed(v, key).0;
            &&& pressed(v, key).1 is Nothing
            &&& len == 0 && by > 0 ==> after == v
            &&& len > 0 || by < 0 ==> {
                &&& after == (AppView { left: after.left, right: Some(0), preview: None, ..v })
                &&& v.left is None ==> after.left == Some(0usize)
                &&& v.left matches Some(i) ==> by > 0 ==> (after.left matches Some(j) && j as int
                    == lesser(i + by, len - 1))
                &&& v.left matches Some(i) ==> by < 0 ==> (after.left matches Some(j) && j as int
                    == if i + by < 0 {
                    0
                } else {
                    i + by
                })
            }
        }),
{
}

/// Among the copies, a key that moves the highlight moves it by its number of rows, but neither
/// beyond the last copy nor before the first row; nothing else changes.
pub proof fn keys_move_through_the_copies(
    v: AppView,
    key: KeyPress,
    i: int,
    f: FileView,
    g: int,
    at: Seq<int>,
)
    requires
        takes_keys(v),
        v.focus_right,
        rows_moved(v, key) is Some,
        file_is_highlighted(v, i, f, g),
        are_the_copies(at, v.groups[g], f.path),
        at.len() < usize::MAX,
    ensures
        ({
            let by = rows_moved(v, key)->0;
            let after = pressed(v, key).0;
            &&& pressed(v, key).1 is Nothing
            &&& after == (AppView { right: after.right, ..v })
            &&& v.right is None ==> after.right == Some(0usize)
            &&& v.right matches Some(r) ==> by > 0 ==> (after.right matches Some(j) && j as int
                == lesser(r + by, at.len() as int))
            &&& v.right matches Some(r) ==> by < 0 ==> (after.right matches Some(j) && j as int
                == if r + by < 0 {
                0
            } else {
                r + by
            })
            &&& pressed(v, KeyPress::Home).0 == (AppView { right: Some(0), ..v })
            &&& pressed(v, KeyPress::End).0 == (AppView { right: Some(at.len() as usize), ..v })
        }),
{
    lemma_copies(at, v.groups[g], f.path);
}

/// In the tree, Home highlights the first row and End the last one.
pub proof fn home_and_end(v: AppView)
    requires
        takes_keys(v),
        !v.focus_right,
        rows(v.tree, v.sort_mode).len() <= usize::MAX,
    ensures
        pressed(v, KeyPress::Home) == (
            AppView { left: Some(0), right: Some(0), preview: None, ..v },
            EffectView::Nothing,
        ),
        pressed(v, KeyPress::End) == (
            if rows(v.tree, v.sort_mode).len() > 0 {
                AppView {
                    left: Some((rows(v.tree, v.sort_mode).len() - 1) as usize),
                    right: Some(0),
                    preview: None,
                    ..v
                }
            } else {
                v
            },
            EffectView::Nothing,
        ),
{
}

/// The methods that move the highlight do what the keys do.
pub proof fn methods_do_what_keys_do(v: AppView)
    requires
        takes_keys(v),
    ensures
        moved_down(v, 1) == pressed(v, KeyPress::Down).0,
        moved_up(v, 1) == pressed(v, KeyPress::Up).0,
        at_top(v) == pressed(v, KeyPress::Home).0,
        at_bottom(v) == pressed(v, KeyPress::End).0,
        moved_down(v, page_rows(v.terminal_height)) == pressed(v, KeyPress::PageDown).0,
        moved_up(v, page_rows(v.terminal_height)) == pressed(v, KeyPress::PageUp).0,
        toggled_dir(v) == pressed(v, KeyPress::Enter).0,
        resorted(v) == pressed(v, KeyPress::Char('s')).0,
        collapsed(v) == pressed(v, KeyPress::Char('c')).0,
        expanded(v) == pressed(v, KeyPress::Char('e')).0,
        shown_in_tree(v) == pressed(v, KeyPress::Char('g')).0,
        !v.read_only ==> delete_asked(v) == pressed(v, KeyPress::Char('d')).0,
        !v.read_only ==> synced(v) == pressed(v, KeyPress::Char('S')).0,
{
}

/// The wheel moves the highlight by one row, as the arrows do where no dialog is open. A press gives
/// the focus to the tree in the left two fifths of the terminal, and to the copies elsewhere. An open
/// dialog makes no difference.
pub proof fn the_mouse_moves_and_focuses(v: AppView, column: u16, width: u16)
    ensures
        takes_keys(v) ==> moused(v, MouseAction::ScrollDown, width) == pressed(
            v,
            KeyPress::Down,
        ).0,
        takes_keys(v) ==> moused(v, MouseAction::ScrollUp, width) == pressed(v, KeyPress::Up).0,
        ({
            let after = moused(v, MouseAction::Press { column }, width);
            &&& after == (AppView { focus_right: after.focus_right, ..v })
            &&& after.focus_right <==> column >= (width * 2) / 5
        }),
        moused(v, MouseAction::Other, width) == v,
        ({
            let open = AppView { dialog: DialogView::Closed, filtering: false, ..v };
            &&& moused(v, MouseAction::ScrollDown, width) == (AppView {
                dialog: v.dialog,
                filtering: v.filtering,
                ..pressed(open, KeyPress::Down).0
            })
            &&& moused(v, MouseAction::ScrollUp, width) == (AppView {
                dialog: v.dialog,
                filtering: v.filtering,
                ..pressed(open, KeyPress::Up).0
            })
        }),
{
    assert((width * 40) / 100 == (width * 2) / 5);
}

// ---------------------------------------------------------------------------
// The keys of the main screen
// ---------------------------------------------------------------------------

/// Tab moves the focus to the other pane, and `/` begins the typing of a filter; nothing else
/// changes.
pub proof fn tab_and_slash(v: AppView)
    requires
        takes_keys(v),
    ensures
        pressed(v, KeyPress::Tab) == (
            AppView { focus_right: !v.focus_right, ..v },
            EffectView::Nothing,
        ),
        pressed(v, KeyPress::Char('/')) == (
            AppView { filtering: true, ..v },
            EffectView::Nothing,
        ),
{
}

/// `p` shows or hides the preview; once it is hidden, what was loaded is given up.
pub proof fn the_preview_is_switched(v: AppView)
    requires
        takes_keys(v),
    ensures
        ({
            let after = pressed(v, KeyPress::Char('p')).0;
            &&& pressed(v, KeyPress::Char('p')).1 is Nothing
            &&& after.show_preview == !v.show_preview
            &&& !after.show_preview ==> after.preview is None
            &&& after.show_preview ==> after.preview == v.preview
            &&& after == (AppView {
                show_preview: after.show_preview,
                preview: after.preview,
                ..v
            })
        }),
{
}

/// The flags of all directories are as given, and nothing else differs.
pub open spec fn flags_are_set(a: NodeView, b: NodeView, expanded: bool) -> bool
    decreases a,
{
    &&& b.expanded == if a.is_dir {
        expanded
    } else {
        a.expanded
    }
    &&& b == (NodeView { expanded: b.expanded, children: b.children, ..a })
    &&& b.children.len() == a.children.len()
    &&& forall|i: int|
        0 <= i < a.children.len() ==> flags_are_set(
            #[trigger] a.children[i],
            b.children[i],
            expanded,
        )
}

/// Expanding or collapsing all directories does so with each of them, at any depth, and changes
/// nothing else in the tree.
pub proof fn all_directories_are_set(node: NodeView, expanded: bool)
    ensures
        flags_are_set(node, all_set(node, expanded), expanded),
    decreases node,
{
    let after = all_set(node, expanded);
    assert forall|i: int| 0 <= i < node.children.len() implies flags_are_set(
        #[trigger] node.children[i],
        after.children[i],
        expanded,
    ) by {
        all_directories_are_set(node.children[i], expanded);
        assert(after.children[i] == all_set(node.children[i], expanded));
    }
}

/// `c` collapses and `e` expands all directories. Collapsing highlights the first row; expanding
/// leaves the highlight at its row.
pub proof fn all_directories_collapse_and_expand(v: AppView)
    requires
        takes_keys(v),
    ensures
        flags_are_set(v.tree, pressed(v, KeyPress::Char('c')).0.tree, false),
        flags_are_set(v.tree, pressed(v, KeyPress::Char('e')).0.tree, true),
        pressed(v, KeyPress::Char('c')) == (
            AppView {
                tree: pressed(v, KeyPress::Char('c')).0.tree,
                left: Some(0),
                right: Some(0),
                preview: None,
                ..v
            },
            EffectView::Nothing,
        ),
        pressed(v, KeyPress::Char('e')) == (
            AppView { tree: pressed(v, KeyPress::Char('e')).0.tree, preview: None, ..v },
            EffectView::Nothing,
        ),
{
    all_directories_are_set(v.tree, false);
    all_directories_are_set(v.tree, true);
}

/// `o` asks for the highlighted node to be opened, a directory too, and changes nothing.
pub proof fn the_highlighted_node_is_opened(v: AppView, i: int, node: NodeView)
    requires
        takes_keys(v),
        !v.focus_right,
        row_is_highlighted(v, i, node),
    ensures
        pressed(v, KeyPress::Char('o')) == (v, EffectView::Open { path: node.full_path() }),
{
}

/// Among the copies `o` asks for the highlighted copy to be opened, and changes nothing.
pub proof fn the_highlighted_copy_is_opened(
    v: AppView,
    i: int,
    f: FileView,
    g: int,
    at: Seq<int>,
    shown: FileView,
)
    requires
        takes_keys(v),
        v.focus_right,
        file_is_highlighted(v, i, f, g),
        copy_is_highlighted(v, f, g, at, shown),
    ensures
        pressed(v, KeyPress::Char('o')) == (v, EffectView::Open { path: shown.full_path() }),
{
    lemma_copies(at, v.groups[g], f.path);
}

/// `E` asks for the report of all groups, whatever the filter hides, to be written to its file below
/// the root, and says where.
pub proof fn the_report_is_exported(v: AppView)
    requires
        takes_keys(v),
    ensures
        ({
            let file = full_join_text(v.root, "dupfinder_report.csv"@);
            pressed(v, KeyPress::Char('E')) == (
                AppView {
                    notification: Some("Exported to "@ + shown_text(file.written)),
                    ..v
                },
                EffectView::WriteReport { path: file, text: csv_report(v.groups, v.root.steps) },
            )
        }),
{
}

/// `s` goes on to the next order, from names to sizes, dates, counts and names again. The groups and
/// the tree are those of that order, under the same filter, and the selection stays.
pub proof fn the_order_is_cycled(v: AppView)
    requires
        takes_keys(v),
    ensures
        ({
            let after = pressed(v, KeyPress::Char('s')).0;
            &&& pressed(v, KeyPress::Char('s')).1 is Nothing
            &&& v.sort_mode == SortMode::Name ==> after.sort_mode == SortMode::Size
            &&& v.sort_mode == SortMode::Size ==> after.sort_mode == SortMode::Date
            &&& v.sort_mode == SortMode::Date ==> after.sort_mode == SortMode::Count
            &&& v.sort_mode == SortMode::Count ==> after.sort_mode == SortMode::Name
            &&& after.groups == sorted_groups(v.groups, after.sort_mode)
            &&& after.tree == tree_of(filtered(after.groups, v.filter), v.root)
            &&& after.selected_for_delete == v.selected_for_delete
            &&& after.filter == v.filter && after.root == v.root && after.dialog == v.dialog
            &&& after.read_only == v.read_only && after.show_preview == v.show_preview
            &&& after.notification == v.notification && after.filtering == v.filtering
        }),
{
}

/// Once the tree is built anew, the row that was highlighted still is, or the last one where there
/// are fewer; with no rows none is. The focus is on the tree.
pub proof fn the_highlight_stays_in_the_new_tree(v: AppView)
    requires
        rows(rebuilt(v).tree, v.sort_mode).len() <= usize::MAX,
    ensures
        ({
            let after = rebuilt(v);
            let len = rows(after.tree, v.sort_mode).len() as int;
            &&& after.tree == tree_of(filtered(v.groups, v.filter), v.root)
            &&& len == 0 ==> after.left is None && after.right is None
            &&& len > 0 ==> after.right == Some(0usize)
            &&& len > 0 && v.left is None ==> after.left == Some(0usize)
            &&& v.left matches Some(i) ==> len > 0 ==> (after.left matches Some(j) && j as int
                == lesser(i as int, len - 1))
            &&& !after.focus_right
            &&& after.preview is None
            &&& after == (AppView {
                tree: after.tree,
                left: after.left,
                right: after.right,
                preview: None,
                focus_right: false,
                ..v
            })
        }),
{
}

/// The interface begins with the groups in the order of their names, all of them in the tree, its
/// first row highlighted, nothing selected, no filter and no dialog.
pub proof fn the_interface_begins(
    groups: Seq<Seq<FileView>>,
    root: PathView,
    read_only: bool,
)
    ensures
        ({
            let v = initial(groups, root, read_only);
            &&& v.groups == sorted_groups(groups, SortMode::Name)
            &&& v.root == root && v.read_only == read_only
            &&& v.tree == tree_of(numbered(v.groups), root)
            &&& v.left == if rows(v.tree, SortMode::Name).len() > 0 {
                Some(0usize)
            } else {
                None
            }
            &&& v.right is None && !v.focus_right && v.sort_mode == SortMode::Name
            &&& v.selected() == Set::<Seq<Step>>::empty()
            &&& v.filter.len() == 0 && takes_keys(v)
            &&& v.show_preview && v.preview is None && v.notification is None
            &&& v.terminal_height == 24
        }),
{
}

/// A key that is given no meaning does nothing.
pub proof fn other_keys_do_nothing(v: AppView, key: KeyPress)
    requires
        takes_keys(v),
        match key {
            KeyPress::Char(c) => c != 'q' && c != 'j' && c != 'k' && c != ' ' && c != 'd' && c
                != 'S' && c != 'a' && c != 's' && c != 'p' && c != 'g' && c != 'u' && c != 'x' && c
                != 'i' && c != 'c' && c != 'e' && c != 'o' && c != 'E' && c != '/',
            _ => key == KeyPress::Backspace || key == KeyPress::Left || key == KeyPress::Right
                || key == KeyPress::Other,
        },
    ensures
        pressed(v, key) == (v, EffectView::Nothing),
{
}

// ---------------------------------------------------------------------------
// Going to a copy
// ---------------------------------------------------------------------------

/// The first row with a path: it is there, and no row before it has the path. There is none if and
/// only if no row has it.
pub proof fn the_first_row_is_found(all: Seq<(nat, NodeView)>, path: Seq<Step>)
    requires
        all.len() <= usize::MAX,
    ensures
        row_of(all, path) matches Some(i) ==> i < all.len() && all[i as int].1.path == path && (
        forall|j: int| 0 <= j < i ==> (#[trigger] all[j]).1.path != path),
        row_of(all, path) is None ==> forall|j: int|
            0 <= j < all.len() ==> (#[trigger] all[j]).1.path != path,
    decreases all.len(),
{
    if all.len() > 0 {
        let front = all.drop_last();
        the_first_row_is_found(front, path);
        assert forall|j: int| 0 <= j < front.len() implies front[j] == #[trigger] all[j] by {}
    }
}

/// `g` does nothing in the tree, nor where neither the highlighted copy nor its directory is
/// displayed. Where the copy is displayed, its row is highlighted in the tree, which gets the focus.
pub proof fn going_to_a_copy(
    v: AppView,
    i: int,
    f: FileView,
    g: int,
    at: Seq<int>,
    shown: FileView,
    row: int,
)
    requires
        takes_keys(v),
        rows(v.tree, v.sort_mode).len() <= usize::MAX,
        file_is_highlighted(v, i, f, g),
        copy_is_highlighted(v, f, g, at, shown),
    ensures
        !v.focus_right ==> pressed(v, KeyPress::Char('g')) == (v, EffectView::Nothing),
        v.focus_right && 0 <= row < rows(v.tree, v.sort_mode).len() && rows(
            v.tree,
            v.sort_mode,
        )[row].1.path == shown.path && (forall|j: int|
            0 <= j < row ==> (#[trigger] rows(v.tree, v.sort_mode)[j]).1.path != shown.path)
            ==> pressed(v, KeyPress::Char('g')) == (
            AppView {
                left: Some(row as usize),
                right: Some(0),
                preview: None,
                focus_right: false,
                ..v
            },
            EffectView::Nothing,
        ),
        v.focus_right && (forall|j: int|
            0 <= j < rows(v.tree, v.sort_mode).len() ==> (#[trigger] rows(
                v.tree,
                v.sort_mode,
            )[j]).1.path != shown.path && Some(rows(v.tree, v.sort_mode)[j].1.path) != path_parent(
                shown.path,
            )) ==> pressed(v, KeyPress::Char('g')) == (v, EffectView::Nothing),
{
    let all = rows(v.tree, v.sort_mode);
    lemma_copies(at, v.groups[g], f.path);
    assert(target(v) == Some(shown.full_path()));
    the_first_row_is_found(all, shown.path);
    if let Some(dir) = path_parent(shown.path) {
        the_first_row_is_found(all, dir);
        if row_of(all, dir) is Some {
            assert(all[row_of(all, dir)->0 as int].1.path == dir);
        }
    }
    if row_of(all, shown.path) is Some {
        let k = row_of(all, shown.path)->0 as int;
        assert(all[k].1.path == shown.path);
        if 0 <= row < all.len() && all[row].1.path == shown.path {
            if row < k {
                assert(all[row].1.path != shown.path);
            }
        }
    }
}

// ---------------------------------------------------------------------------
// The keys of the dialogs
// ---------------------------------------------------------------------------

/// In the delete dialog Enter does what the highlighted button says: nothing but closing for
/// Cancel; asking for the trash directory below the root for Trash, with nothing begun yet; and
/// deleting for good. Escape closes.
pub proof fn the_delete_dialog_is_answered(v: AppView, scroll: Option<usize>, button: DialogButton)
    requires
        v.dialog == (DialogView::ConfirmDelete { scroll, button }),
        !v.filtering,
    ensures
        button == DialogButton::Cancel ==> pressed(v, KeyPress::Enter) == (
            AppView { dialog: DialogView::Closed, ..v },
            EffectView::Nothing,
        ),
        button == DialogButton::Trash ==> pressed(v, KeyPress::Enter) == (
            v,
            EffectView::PrepareTrash { dir: full_join_text(v.root, ".dupfinder_trash"@) },
        ),
        button == DialogButton::DeletePermanently ==> pressed(v, KeyPress::Enter) == (
            delete_begun(v, true, None),
            EffectView::Nothing,
        ),
        pressed(v, KeyPress::Esc) == (
            AppView { dialog: DialogView::Closed, ..v },
            EffectView::Nothing,
        ),
{
}

/// In the delete dialog the arrows to the sides and Tab highlight the next button of Cancel, Trash
/// and Delete, round about; up and down move through the list of what is selected; no other key but
/// Enter and Escape does anything.
pub proof fn the_delete_dialog_is_moved_through(
    v: AppView,
    scroll: Option<usize>,
    button: DialogButton,
    key: KeyPress,
)
    requires
        v.dialog == (DialogView::ConfirmDelete { scroll, button }),
        !v.filtering,
        v.selected().len() <= usize::MAX,
        key != KeyPress::Enter && key != KeyPress::Esc,
    ensures
        pressed(v, key).1 is Nothing,
        pressed(v, key).0 == (AppView { dialog: pressed(v, key).0.dialog, ..v }),
        pressed(v, key).0.dialog matches DialogView::ConfirmDelete { scroll: row, button: next } && {
            let right = key == KeyPress::Right || key == KeyPress::Tab;
            let left = key == KeyPress::Left;
            let down = key == KeyPress::Down || key == KeyPress::Char('j');
            let up = key == KeyPress::Up || key == KeyPress::Char('k');
            &&& right && button == DialogButton::Cancel ==> next == DialogButton::Trash
            &&& right && button == DialogButton::Trash ==> next == DialogButton::DeletePermanently
            &&& right && button == DialogButton::DeletePermanently ==> next == DialogButton::Cancel
            &&& left && button == DialogButton::Cancel ==> next == DialogButton::DeletePermanently
            &&& left && button == DialogButton::Trash ==> next == DialogButton::Cancel
            &&& left && button == DialogButton::DeletePermanently ==> next == DialogButton::Trash
            &&& !right && !left ==> next == button
            &&& down && v.selected().len() > 0 ==> (row matches Some(n) && n as int == match scroll {
                Some(i) => lesser(i + 1, v.selected().len() - 1),
                None => 0,
            })
            &&& up ==> (row matches Some(n) && n as int == match scroll {
                Some(i) => if i > 0 {
                    i - 1
                } else {
                    0
                },
                None => 0,
            })
            &&& !up && !down ==> row == scroll
        },
{
}

/// Where it was asked whether to quit, `y` and Enter do so, and every other key goes back. A message
/// is closed by any key.
pub proof fn questions_are_answered(v: AppView, key: KeyPress)
    requires
        !v.filtering,
    ensures
        v.dialog is ConfirmQuit ==> pressed(v, key) == if key == KeyPress::Enter || key
            == KeyPress::Char('y') {
            (v, EffectView::Quit)
        } else {
            (AppView { dialog: DialogView::Closed, ..v }, EffectView::Nothing)
        },
        v.dialog is Error ==> pressed(v, key) == (
            AppView { dialog: DialogView::Closed, ..v },
            EffectView::Nothing,
        ),
{
}

/// Where a file could not be deleted, the arrows to the sides and Tab highlight the next of Retry,
/// Skip and Cancel, round about; no other key but Enter and Escape does anything.
pub proof fn the_error_dialog_is_moved_through(
    v: AppView,
    job: DeletionView,
    error: Seq<char>,
    choice: DeleteErrorButton,
    key: KeyPress,
)
    requires
        v.dialog == (DialogView::DeleteError { job, error, choice }),
        !v.filtering,
        key != KeyPress::Enter && key != KeyPress::Esc,
    ensures
        pressed(v, key).0.dialog matches DialogView::DeleteError {
            job: same,
            error: told,
            choice: next,
        } && {
            let moves = key == KeyPress::Left || key == KeyPress::Right || key == KeyPress::Tab;
            &&& same == job && told == error
            &&& moves && choice == DeleteErrorButton::Retry ==> next == DeleteErrorButton::Skip
            &&& moves && choice == DeleteErrorButton::Skip ==> next == DeleteErrorButton::Cancel
            &&& moves && choice == DeleteErrorButton::Cancel ==> next == DeleteErrorButton::Retry
            &&& !moves ==> next == choice
        },
{
}

// ---------------------------------------------------------------------------
// Previews and messages
// ---------------------------------------------------------------------------

/// The preview of the highlighted file is asked for where previews are shown and it is not at hand,
/// and one of another file is given up. A preview that is at hand is kept.
pub proof fn the_preview_is_of_the_highlighted_file(v: AppView, i: int, f: FileView, g: int)
    requires
        file_is_highlighted(v, i, f, g),
    ensures
        !v.show_preview ==> wanted_preview(v) is None && preview_checked(v) == v,
        v.show_preview && (v.preview matches Some(p) && p.steps == f.path) ==> wanted_preview(
            v,
        ) is None && preview_checked(v) == v,
        v.show_preview && !(v.preview matches Some(p) && p.steps == f.path) ==> wanted_preview(v)
            == Some(f.full_path()) && preview_checked(v) == (AppView { preview: None, ..v }),
{
}

/// Where no file is highlighted, no preview is asked for, and what was shown is given up.
pub proof fn no_file_no_preview(v: AppView)
    requires
        v.show_preview,
        v.left matches Some(i) ==> i >= rows(v.tree, v.sort_mode).len() || rows(
            v.tree,
            v.sort_mode,
        )[i as int].1.file_info is None,
    ensures
        wanted_preview(v) is None,
        preview_checked(v) == (AppView { preview: None, ..v }),
{
}

/// What became of opening a file is told: by its name where it was opened, and in a dialog with the
/// reason where it was not.
pub proof fn opening_is_told(v: AppView, path: Seq<Step>, name: Seq<u8>, why: Seq<char>, said: Seq<u8>)
    requires
        path.len() > 0,
        path.last() == Step::Normal(name),
    ensures
        opened(v, path, OutcomeView::Opened) == (AppView {
            notification: Some("Opened: "@ + lossy_text(name)),
            ..v
        }),
        opened(v, path, OutcomeView::Failed(why)) == (AppView {
            dialog: DialogView::Error(seq!["Failed to open: "@ + why]),
            ..v
        }),
        opened(v, path, OutcomeView::Refused(said)) == (AppView {
            dialog: DialogView::Error(seq!["Failed to open: "@ + trim(lossy_text(said))]),
            ..v
        }),
{
}

} // verus!
