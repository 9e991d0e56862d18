//! What the interface shows, as text.
use vstd::prelude::*;
use vstd::utf8::encode_utf8;

use crate::app::{
    chosen_file, copies, copies_of, current_rows, right_index, text_view, texts_view, App, AppView,
    DeleteErrorButton, DeleteStatus, Deletion, DeletionView, DialogButton, DialogState, DialogView,
    StatusView,
};
use crate::groups::{
    count_listed, file_total, held_total, size_stats, stats_fit, wasted_is_held, wasted_total,
};
use crate::path::{text_within, FilePath, PathView, Step};
use crate::path_set::{full_paths_view, listed, listing, paths_view};
use crate::record::{group_view, groups_view, DuplicateGroups, FileInfo, FileView};
use crate::report::lines_view;
use crate::size::{format_size, size_text};
use crate::text::{
    chars_of, decimal, decode_lossy, lossy_text, middle_cut, push_decimal, truncate_middle,
};
use crate::tree::{
    count_files, dir_total_size, file_count, info_view, lemma_children_view, lemma_sizes_in_grows,
    sizes_in, total_size, NodeView, SortMode, TreeNode,
};
use crate::tree_laws::rows_hold_no_more;

verus! {

// ---------------------------------------------------------------------------
// The tree
// ---------------------------------------------------------------------------

/// How a row is shown.
#[derive(Debug, Clone, Copy, PartialEq, Eq, Structural)]
pub enum RowStyle {
    /// A file that is selected for deletion.
    Marked,
    /// A directory.
    Directory,
    /// The file whose copies are listed.
    Chosen,
    /// Any other file.
    Plain,
}

/// A row: its text, and how it is shown.
#[derive(Debug)]
pub struct Row {
    pub text: String,
    pub style: RowStyle,
}

/// What a `Row` stands for.
pub struct RowView {
    pub text: Seq<char>,
    pub style: RowStyle,
}

impl View for Row {
    type V = RowView;

    open spec fn view(&self) -> RowView {
        RowView { text: self.text@, style: self.style }
    }
}

/// What a sequence of rows stands for.
pub open spec fn row_views(rows: Seq<Row>) -> Seq<RowView> {
    rows.map_values(|r: Row| r@)
}

/// The blanks before a row of that depth.
pub open spec fn indent(depth: nat) -> Seq<char>
    decreases depth,
{
    if depth == 0 {
        seq![]
    } else {
        indent((depth - 1) as nat) + "  "@
    }
}

/// The sign before the name of a node.
pub open spec fn icon(node: NodeView) -> Seq<char> {
    if node.is_dir {
        if node.expanded {
            "▼ "@
        } else {
            "▶ "@
        }
    } else {
        "  "@
    }
}

/// What stands behind the name of a node: how many files there are in a directory, and how many
/// bytes it or the file has.
pub open spec fn size_note(node: NodeView) -> Seq<char> {
    if node.is_dir {
        " ["@ + decimal(file_count(node)) + ", "@ + size_text(total_size(node)) + "]"@
    } else {
        match node.file_info {
            Some(f) => " ["@ + size_text(f.size as nat) + "]"@,
            None => seq![],
        }
    }
}

/// Whether a node is a file that is selected.
pub open spec fn is_marked(node: NodeView, selected: Set<Seq<Step>>) -> bool {
    !node.is_dir && selected.contains(node.path)
}

/// How many columns a row takes up beside its name.
pub open spec fn beside_name(depth: nat, node: NodeView) -> int {
    3 + 2 * depth as int + size_note(node).len()
}

/// The name of a node as it fits into the width: that of a file is cut in the middle where its
/// bytes and what stands beside it are more.
pub open spec fn fitted_name(depth: nat, node: NodeView, width: int) -> Seq<char> {
    let beside = beside_name(depth, node);
    if !node.is_dir && beside + encode_utf8(node.name).len() > width {
        middle_cut(
            node.name,
            if width > beside {
                (width - beside) as nat
            } else {
                0
            },
        )
    } else {
        node.name
    }
}

/// The row of a node in the tree.
pub open spec fn tree_row(depth: nat, node: NodeView, selected: Set<Seq<Step>>, width: int) -> RowView {
    let marked = is_marked(node, selected);
    RowView {
        text: (if marked {
            "*"@
        } else {
            " "@
        }) + indent(depth) + icon(node) + fitted_name(depth, node, width) + size_note(node),
        style: if marked {
            RowStyle::Marked
        } else if node.is_dir {
            RowStyle::Directory
        } else {
            RowStyle::Plain
        },
    }
}

/// How many columns are left of a pane within its border.
pub open spec fn inner_width(width: u16) -> int {
    if width >= 2 {
        width - 2
    } else {
        0
    }
}

/// The rows of the tree in a pane of that width.
pub open spec fn tree_rows(v: AppView, width: u16) -> Seq<RowView> {
    current_rows(v).map_values(
        |r: (nat, NodeView)| tree_row(r.0, r.1, v.selected(), inner_width(width)),
    )
}

/// The bytes of every displayed directory can be counted.
pub open spec fn sizes_fit(v: AppView) -> bool {
    forall|i: int|
        0 <= i < current_rows(v).len() ==> total_size((#[trigger] current_rows(v)[i]).1)
            <= u64::MAX
}

/// The title of the tree, with the filter while it is typed.
pub open spec fn tree_title(v: AppView) -> Seq<char> {
    if v.filtering {
        " Duplicates [/"@ + v.filter + "] "@
    } else {
        " Duplicates "@
    }
}

fn push_indent(out: &mut String, depth: usize)
    ensures
        final(out)@ == old(out)@ + indent(depth as nat),
{
    let mut i: usize = 0;
    assert(out@ =~= old(out)@ + indent(0));
    while i < depth
        invariant
            i <= depth,
            out@ == old(out)@ + indent(i as nat),
        decreases depth - i,
    {
        out.append("  ");
        i += 1;
        assert(out@ =~= old(out)@ + indent(i as nat));
    }
}

fn note_of(node: &TreeNode) -> (r: String)
    requires
        file_count(node@) <= usize::MAX,
        total_size(node@) <= u64::MAX,
    ensures
        r@ == size_note(node@),
{
    let mut r = String::new();
    if node.is_dir {
        r.append(" [");
        push_decimal(&mut r, count_files(node) as u64);
        r.append(", ");
        let size = format_size(dir_total_size(node));
        r.append(size.as_str());
        r.append("]");
        assert(r@ =~= size_note(node@));
    } else if let Some(info) = &node.file_info {
        assert(node@.file_info == Some(info@));
        r.append(" [");
        let size = format_size(info.size);
        r.append(size.as_str());
        r.append("]");
        assert(r@ =~= size_note(node@));
    } else {
        assert(r@ =~= size_note(node@));
    }
    r
}

fn fit_name(depth: usize, node: &TreeNode, note: &String, width: usize) -> (r: String)
    requires
        note@ == size_note(node@),
    ensures
        r@ == fitted_name(depth as nat, node@, width as int),
{
    if node.is_dir {
        return node.name.as_str().to_owned();
    }
    let bytes: Vec<u8> = node.name.as_str().as_bytes_vec();
    let note_len: usize = chars_of(note.as_str()).len();
    let beside: u128 = 3 + 2 * (depth as u128) + note_len as u128;
    if beside + bytes.len() as u128 > width as u128 {
        let room: usize = if width as u128 > beside {
            (width as u128 - beside) as usize
        } else {
            0
        };
        truncate_middle(node.name.as_str(), room)
    } else {
        node.name.as_str().to_owned()
    }
}

fn row_in_tree(depth: usize, node: &TreeNode, marked: bool, width: usize) -> (r: Row)
    requires
        file_count(node@) <= usize::MAX,
        total_size(node@) <= u64::MAX,
    ensures
        forall|selected: Set<Seq<Step>>|
            is_marked(node@, selected) == marked ==> r@ == #[trigger] tree_row(
                depth as nat,
                node@,
                selected,
                width as int,
            ),
{
    let note = note_of(node);
    let name = fit_name(depth, node, &note, width);
    let mut text = String::new();
    if marked {
        text.append("*");
    } else {
        text.append(" ");
    }
    push_indent(&mut text, depth);
    if node.is_dir {
        if node.expanded {
            text.append("▼ ");
        } else {
            text.append("▶ ");
        }
    } else {
        text.append("  ");
    }
    text.append(name.as_str());
    text.append(note.as_str());
    let style = if marked {
        RowStyle::Marked
    } else if node.is_dir {
        RowStyle::Directory
    } else {
        RowStyle::Plain
    };
    let r = Row { text, style };
    proof {
        assert forall|selected: Set<Seq<Step>>|
            is_marked(node@, selected) == marked implies r@ == #[trigger] tree_row(
            depth as nat,
            node@,
            selected,
            width as int,
        ) by {
            assert(r@.text =~= tree_row(depth as nat, node@, selected, width as int).text);
        }
    }
    r
}

fn pane_width(width: u16) -> (r: usize)
    ensures
        r == inner_width(width),
{
    if width >= 2 {
        (width - 2) as usize
    } else {
        0
    }
}

/// The size of all files in a tree, where it can be counted.
pub fn checked_total_size(node: &TreeNode) -> (r: Option<u64>)
    ensures
        match r {
            Some(n) => n == total_size(node@),
            None => total_size(node@) > u64::MAX,
        },
    decreases node,
{
    if !node.is_dir {
        return Some(
            match &node.file_info {
                Some(f) => f.size,
                None => 0,
            },
        );
    }
    let mut sum: u64 = 0;
    let mut i: usize = 0;
    proof {
        lemma_children_view(*node);
    }
    while i < node.children.len()
        invariant
            i <= node.children@.len(),
            node.is_dir,
            node@.children.len() == node.children@.len(),
            forall|j: int|
                0 <= j < node.children@.len() ==> node@.children[j] == #[trigger] node.children@[j]@,
            sum == sizes_in(node@.children, i as int),
        decreases node.children@.len() - i,
    {
        proof {
            lemma_sizes_in_grows(
                node@.children,
                i + 1,
                node.children@.len() as int,
            );
        }
        match checked_total_size(&node.children[i]) {
            Some(n) => match sum.checked_add(n) {
                Some(s) => {
                    sum = s;
                },
                None => {
                    return None;
                },
            },
            None => {
                return None;
            },
        }
        i += 1;
    }
    Some(sum)
}

impl App {
    /// Whether the bytes of every displayed directory can be counted.
    pub fn row_sizes_fit(&self) -> (r: bool)
        requires
            self.inv(),
        ensures
            r == sizes_fit(self@),
    {
        let flat = self.displayed();
        let mut i: usize = 0;
        while i < flat.len()
            invariant
                i <= flat@.len() == current_rows(self@).len(),
                forall|i: int|
                    0 <= i < flat@.len() ==> (#[trigger] flat@[i]).1@ == current_rows(
                        self@,
                    )[i].1,
                forall|j: int|
                    0 <= j < i ==> total_size((#[trigger] current_rows(self@)[j]).1) <= u64::MAX,
            decreases flat@.len() - i,
        {
            if checked_total_size(flat[i].1).is_none() {
                assert(total_size(current_rows(self@)[i as int].1) > u64::MAX);
                return false;
            }
            i += 1;
        }
        true
    }

    /// The rows of the tree in a pane of that width.
    pub fn left_rows(&self, width: u16) -> (r: Vec<Row>)
        requires
            self.inv(),
            sizes_fit(self@),
        ensures
            row_views(r@) == tree_rows(self@, width),
    {
        let ghost views = current_rows(self@);
        let flat = self.displayed();
        let inner: usize = pane_width(width);
        let mut out: Vec<Row> = Vec::new();
        let mut i: usize = 0;
        proof {
            rows_hold_no_more(self@.tree, self@.sort_mode);
        }
        while i < flat.len()
            invariant
                i <= flat@.len() == views.len(),
                self.inv(),
                views == current_rows(self@),
                sizes_fit(self@),
                inner == inner_width(width),
                forall|i: int|
                    0 <= i < flat@.len() ==> (#[trigger] flat@[i]).0 == views[i].0 && flat@[i].1@
                        == views[i].1,
                forall|i: int|
                    0 <= i < views.len() ==> file_count((#[trigger] views[i]).1) <= usize::MAX,
                out@.len() == i,
                forall|j: int|
                    0 <= j < i ==> (#[trigger] out@[j])@ == tree_row(
                        views[j].0,
                        views[j].1,
                        self@.selected(),
                        inner as int,
                    ),
            decreases flat@.len() - i,
        {
            let (depth, node): (usize, &TreeNode) = flat[i];
            let marked: bool = !node.is_dir && self.selected_for_delete.contains(&node.path);
            assert(is_marked(node@, self@.selected()) == marked);
            assert(node@ == views[i as int].1);
            out.push(row_in_tree(depth, node, marked, inner));
            i += 1;
        }
        assert(row_views(out@) =~= tree_rows(self@, width));
        out
    }

    /// The title of the tree.
    pub fn left_title(&self) -> (r: String)
        ensures
            r@ == tree_title(self@),
    {
        let mut r = String::new();
        if self.filtering {
            r.append(" Duplicates [/");
            r.append(self.filter.as_str());
            r.append("] ");
        } else {
            r.append(" Duplicates ");
        }
        assert(r@ =~= tree_title(self@));
        r
    }
}

// ---------------------------------------------------------------------------
// The copies
// ---------------------------------------------------------------------------

/// The first row: the file whose copies are listed.
pub open spec fn chosen_row(v: AppView, path: PathView) -> RowView {
    let marked = v.selected().contains(path.steps);
    RowView {
        text: (if marked {
            "* "@
        } else {
            seq![]
        }) + "[<<] "@ + text_within(path, v.root.steps),
        style: if marked {
            RowStyle::Marked
        } else {
            RowStyle::Chosen
        },
    }
}

/// The row of a copy.
pub open spec fn copy_row(v: AppView, path: PathView) -> RowView {
    let marked = v.selected().contains(path.steps);
    RowView {
        text: (if marked {
            "* "@
        } else {
            "  "@
        }) + text_within(path, v.root.steps),
        style: if marked {
            RowStyle::Marked
        } else {
            RowStyle::Plain
        },
    }
}

/// The rows of the pane with the copies.
pub open spec fn copy_rows(v: AppView) -> Seq<RowView> {
    match chosen_file(v) {
        Some((f, g)) => seq![chosen_row(v, f.full_path())] + copies(
            v.groups[g as int],
            f.path,
        ).map_values(|c: FileView| copy_row(v, c.full_path())),
        None => seq![],
    }
}

impl App {
    fn row_of_copy(&self, path: &FilePath, chosen: bool) -> (r: Row)
        requires
            self.inv(),
        ensures
            r@ == if chosen {
                chosen_row(self@, path.full())
            } else {
                copy_row(self@, path.full())
            },
    {
        let marked: bool = self.selected_for_delete.contains(path);
        let mut text = String::new();
        if marked {
            text.append("* ");
        } else if !chosen {
            text.append("  ");
        }
        if chosen {
            text.append("[<<] ");
        }
        let shown = path.within(&self.root).to_text();
        text.append(shown.as_str());
        let style = if marked {
            RowStyle::Marked
        } else if chosen {
            RowStyle::Chosen
        } else {
            RowStyle::Plain
        };
        let r = Row { text, style };
        proof {
            if chosen {
                assert(r@.text =~= chosen_row(self@, path.full()).text);
            } else {
                assert(r@.text =~= copy_row(self@, path.full()).text);
            }
        }
        r
    }

    /// The rows of the pane with the copies.
    pub fn right_rows(&self) -> (r: Vec<Row>)
        requires
            self.inv(),
        ensures
            row_views(r@) == copy_rows(self@),
    {
        let mut out: Vec<Row> = Vec::new();
        let (f, g) = match self.selected_file() {
            Some(s) => s,
            None => {
                assert(row_views(out@) =~= copy_rows(self@));
                return out;
            },
        };
        assert(self@.groups[g as int] == group_view(self.groups@[g as int]@));
        out.push(self.row_of_copy(&f.path, true));
        let others = copies_of(&self.groups[g], &f.path);
        let ghost cs = copies(self@.groups[g as int], f@.path);
        let ghost first = chosen_row(self@, f@.full_path());
        assert(others@.map_values(|f: &FileInfo| f@).len() == others@.len());
        let mut i: usize = 0;
        while i < others.len()
            invariant
                i <= others@.len(),
                self.inv(),
                others@.map_values(|f: &FileInfo| f@) == cs,
                out@.len() == i + 1,
                out@[0]@ == first,
                forall|j: int|
                    0 < j <= i ==> (#[trigger] out@[j])@ == copy_row(self@, cs[j - 1].full_path()),
            decreases others@.len() - i,
        {
            assert(others@.map_values(|f: &FileInfo| f@)[i as int] == others@[i as int]@);
            out.push(self.row_of_copy(&others[i].path, false));
            i += 1;
        }
        assert(row_views(out@) =~= copy_rows(self@));
        out
    }
}

// ---------------------------------------------------------------------------
// Details
// ---------------------------------------------------------------------------

/// The copy whose details are shown: the one that is highlighted, or the first.
pub open spec fn detailed_copy(v: AppView, f: FileView, g: usize) -> Option<FileView> {
    let others = copies(v.groups[g as int], f.path);
    let at = if right_index(v) > 0 {
        right_index(v) - 1
    } else {
        0
    };
    if at < others.len() {
        Some(others[at])
    } else {
        None
    }
}

/// The file whose details are shown, and a copy of it.
#[derive(Debug)]
pub struct Details {
    pub selected: FileInfo,
    pub duplicate: Option<FileInfo>,
}

impl App {
    /// The file whose details are shown, and a copy of it.
    pub fn build_details(&self) -> (r: Option<Details>)
        requires
            self.inv(),
        ensures
            match (chosen_file(self@), r) {
                (Some((f, g)), Some(d)) => d.selected@ == f && info_view(d.duplicate)
                    == detailed_copy(self@, f, g),
                (None, None) => true,
                _ => false,
            },
    {
        let (f, g) = match self.selected_file() {
            Some(s) => s,
            None => {
                return None;
            },
        };
        let at: usize = match self.right {
            Some(i) => if i > 0 {
                i - 1
            } else {
                0
            },
            None => 0,
        };
        assert(self@.groups[g as int] == group_view(self.groups@[g as int]@));
        let others = copies_of(&self.groups[g], &f.path);
        assert(others@.map_values(|f: &FileInfo| f@).len() == others@.len());
        let duplicate: Option<FileInfo> = if at < others.len() {
            assert(others@.map_values(|f: &FileInfo| f@)[at as int] == others@[at as int]@);
            Some(others[at].clone())
        } else {
            None
        };
        Some(Details { selected: f.clone(), duplicate })
    }
}

/// What is shown of the first bytes of a file: their text, where none of them is zero.
pub open spec fn preview_of(bytes: Seq<u8>) -> Option<Seq<char>> {
    if bytes.contains(0u8) {
        None
    } else {
        Some(lossy_text(bytes))
    }
}

/// What is shown of the first bytes of a file, where they are those of a text.
pub fn text_preview(bytes: &Vec<u8>) -> (r: Option<String>)
    ensures
        text_view(r) == preview_of(bytes@),
{
    let mut i: usize = 0;
    while i < bytes.len()
        invariant
            i <= bytes@.len(),
            forall|j: int| 0 <= j < i ==> #[trigger] bytes@[j] != 0,
        decreases bytes@.len() - i,
    {
        if bytes[i] == 0 {
            assert(bytes@.contains(bytes@[i as int]));
            return None;
        }
        i += 1;
    }
    assert(!bytes@.contains(0u8));
    Some(decode_lossy(bytes))
}

/// Whether the dates of a file are to be looked up: one of them is not known.
pub fn lacks_a_date(info: &FileInfo) -> (r: bool)
    ensures
        r == (info.created is None || info.modified is None),
{
    info.created.is_none() || info.modified.is_none()
}

/// The one date, or the other where that is not known.
pub open spec fn date_or(known: Option<i128>, found: Option<i128>) -> Option<i128> {
    if known is Some {
        known
    } else {
        found
    }
}

/// The dates of a file that are shown, when it was created and when it was modified: those that
/// are known, and else those that were found when they were looked up.
pub fn dates_to_show(info: &FileInfo, created: Option<i128>, modified: Option<i128>) -> (r: (
    Option<i128>,
    Option<i128>,
))
    ensures
        r == (date_or(info.created, created), date_or(info.modified, modified)),
{
    let first = if info.created.is_some() {
        info.created
    } else {
        created
    };
    let second = if info.modified.is_some() {
        info.modified
    } else {
        modified
    };
    (first, second)
}

/// A date as it is shown, where there is one.
pub open spec fn date_or_none(date: Option<String>) -> Seq<char> {
    match date {
        Some(d) => d@,
        None => "N/A"@,
    }
}

/// The size and the dates of a file, in words.
pub open spec fn meta_text(size: u64, created: Option<String>, modified: Option<String>) -> Seq<char> {
    "  Size: "@ + size_text(size as nat) + "  |  Created: "@ + date_or_none(created)
        + "  |  Modified: "@ + date_or_none(modified)
}

/// The size and the dates of a file, in words.
pub fn format_meta(size: u64, created: &Option<String>, modified: &Option<String>) -> (r: String)
    ensures
        r@ == meta_text(size, *created, *modified),
{
    let mut r = String::new();
    r.append("  Size: ");
    let text = format_size(size);
    r.append(text.as_str());
    r.append("  |  Created: ");
    match created {
        Some(d) => {
            r.append(d.as_str());
        },
        None => {
            r.append("N/A");
        },
    }
    r.append("  |  Modified: ");
    match modified {
        Some(d) => {
            r.append(d.as_str());
        },
        None => {
            r.append("N/A");
        },
    }
    assert(r@ =~= meta_text(size, *created, *modified));
    r
}

// ---------------------------------------------------------------------------
// The status bar
// ---------------------------------------------------------------------------

/// How a part of the status bar is shown.
#[derive(Debug, Clone, Copy, PartialEq, Eq, Structural)]
pub enum SpanStyle {
    Stats,
    Gap,
    Sizes,
    Selection,
    NoSelection,
    Warning,
    ReadOnly,
    Sort,
    Notification,
}

/// A part of the status bar.
#[derive(Debug)]
pub struct StatusSpan {
    pub text: String,
    pub style: SpanStyle,
}

/// What a `StatusSpan` stands for.
pub struct SpanView {
    pub text: Seq<char>,
    pub style: SpanStyle,
}

impl View for StatusSpan {
    type V = SpanView;

    open spec fn view(&self) -> SpanView {
        SpanView { text: self.text@, style: self.style }
    }
}

/// What parts of the status bar stand for.
pub open spec fn span_views(spans: Seq<StatusSpan>) -> Seq<SpanView> {
    spans.map_values(|s: StatusSpan| s@)
}

/// What sorting by a mode is called.
pub open spec fn sort_label(mode: SortMode) -> Seq<char> {
    match mode {
        SortMode::Name => "name"@,
        SortMode::Size => "size"@,
        SortMode::Date => "date"@,
        SortMode::Count => "count"@,
    }
}

/// All copies of a group are selected.
pub open spec fn fully_selected(group: Seq<FileView>, selected: Set<Seq<Step>>) -> bool {
    forall|i: int| 0 <= i < group.len() ==> selected.contains((#[trigger] group[i]).path)
}

/// There is a group of which all copies are selected.
pub open spec fn some_group_fully_selected(v: AppView) -> bool {
    exists|g: int|
        0 <= g < v.groups.len() && fully_selected(#[trigger] v.groups[g], v.selected())
}

/// The size of the first file of a group with that path.
pub open spec fn size_in_group(group: Seq<FileView>, path: Seq<Step>) -> Option<u64>
    decreases group.len(),
{
    if group.len() == 0 {
        None
    } else {
        match size_in_group(group.drop_last(), path) {
            Some(n) => Some(n),
            None => if group.last().path == path {
                Some(group.last().size)
            } else {
                None
            },
        }
    }
}

/// The size of the first file of the groups with that path.
pub open spec fn size_in_groups(groups: Seq<Seq<FileView>>, path: Seq<Step>) -> Option<u64>
    decreases groups.len(),
{
    if groups.len() == 0 {
        None
    } else {
        match size_in_groups(groups.drop_last(), path) {
            Some(n) => Some(n),
            None => size_in_group(groups.last(), path),
        }
    }
}

/// The sizes of the files at some paths together.
pub open spec fn sizes_at(groups: Seq<Seq<FileView>>, paths: Seq<Seq<Step>>) -> nat
    decreases paths.len(),
{
    if paths.len() == 0 {
        0
    } else {
        sizes_at(groups, paths.drop_last()) + match size_in_groups(groups, paths.last()) {
            Some(n) => n as nat,
            None => 0,
        }
    }
}

/// The bytes of what is selected.
pub open spec fn selected_size(v: AppView) -> nat {
    sizes_at(v.groups, listing(v.selected()))
}

/// The totals of the status bar can be counted.
pub open spec fn totals_fit(v: AppView) -> bool {
    held_total(v.groups) <= u64::MAX && selected_size(v) <= u64::MAX
}

/// A part of the status bar.
pub open spec fn span(text: Seq<char>, style: SpanStyle) -> SpanView {
    SpanView { text, style }
}

/// What is said of the selection.
pub open spec fn selection_span(v: AppView) -> SpanView {
    let n = v.selected().len();
    if n > 0 {
        span(
            decimal(n) + " sel ("@ + size_text(selected_size(v)) + ")"@,
            SpanStyle::Selection,
        )
    } else {
        span(decimal(n) + " sel"@, SpanStyle::NoSelection)
    }
}

/// The parts of the status bar: the notification where there is one, and else the totals.
pub open spec fn status_spans(v: AppView) -> Seq<SpanView> {
    match v.notification {
        Some(note) => seq![span(" ✓ "@ + note, SpanStyle::Notification)],
        None => {
            let head = seq![
                span(
                    " "@ + decimal(v.groups.len()) + " groups, "@ + decimal(file_total(v.groups))
                        + " dupes"@,
                    SpanStyle::Stats,
                ),
                span("  "@, SpanStyle::Gap),
                span(
                    "Total:"@ + size_text(held_total(v.groups)) + " Wasted:"@ + size_text(
                        wasted_total(v.groups) as nat,
                    ),
                    SpanStyle::Sizes,
                ),
                span("  "@, SpanStyle::Gap),
                selection_span(v),
            ];
            let warned = if some_group_fully_selected(v) {
                head.push(span(" ⚠ ALL COPIES SELECTED"@, SpanStyle::Warning))
            } else {
                head
            };
            let marked = warned.push(
                span(
                    if v.read_only {
                        " [RO]"@
                    } else {
                        ""@
                    },
                    SpanStyle::ReadOnly,
                ),
            );
            marked.push(span("  Sort:"@ + sort_label(v.sort_mode), SpanStyle::Sort))
        },
    }
}

/// The keys that are of use in the pane that has the focus.
pub open spec fn key_hints(v: AppView) -> Seq<char> {
    if v.focus_right {
        " [Space]Sel [x]KeepOne [a]SelAll [i]Invert [g]Goto [d]Del [o]Open [Tab]Pane [/]Filter [p]Preview [q]Quit"@
    } else {
        " [Space]Sel [a]SelDir [x]KeepOne [i]Invert [u]Desel [c]Collapse [e]Expand [s]Sort [d]Del [o]Open [E]Export [Tab]Pane [/]Filter [p]Preview [q]Quit"@
    }
}

fn find_in_group(group: &Vec<FileInfo>, path: &FilePath) -> (r: Option<u64>)
    ensures
        r == size_in_group(group_view(group@), path@),
{
    let ghost files = group_view(group@);
    let mut i: usize = 0;
    assert(files.take(0) =~= Seq::<FileView>::empty());
    while i < group.len()
        invariant
            i <= group@.len(),
            files == group_view(group@),
            size_in_group(files.take(i as int), path@) is None,
        decreases group@.len() - i,
    {
        proof {
            assert(files.take(i + 1).drop_last() =~= files.take(i as int));
            assert(files[i as int] == group@[i as int]@);
        }
        if group[i].path.equals(path) {
            proof {
                lemma_first_in_group(files, path@, i + 1);
            }
            return Some(group[i].size);
        }
        i += 1;
    }
    assert(files.take(i as int) =~= files);
    None
}

proof fn lemma_first_in_group(files: Seq<FileView>, path: Seq<Step>, i: int)
    requires
        0 <= i <= files.len(),
        size_in_group(files.take(i), path) is Some,
    ensures
        size_in_group(files, path) == size_in_group(files.take(i), path),
    decreases files.len(),
{
    if i < files.len() {
        assert(files.drop_last().take(i) =~= files.take(i));
        lemma_first_in_group(files.drop_last(), path, i);
    } else {
        assert(files.take(i) =~= files);
    }
}

proof fn lemma_first_in_groups(groups: Seq<Seq<FileView>>, path: Seq<Step>, i: int)
    requires
        0 <= i <= groups.len(),
        size_in_groups(groups.take(i), path) is Some,
    ensures
        size_in_groups(groups, path) == size_in_groups(groups.take(i), path),
    decreases groups.len(),
{
    if i < groups.len() {
        assert(groups.drop_last().take(i) =~= groups.take(i));
        lemma_first_in_groups(groups.drop_last(), path, i);
    } else {
        assert(groups.take(i) =~= groups);
    }
}

fn find_in_groups(groups: &DuplicateGroups, path: &FilePath) -> (r: Option<u64>)
    ensures
        r == size_in_groups(groups_view(groups@), path@),
{
    let ghost gs = groups_view(groups@);
    let mut i: usize = 0;
    assert(gs.take(0) =~= Seq::<Seq<FileView>>::empty());
    while i < groups.len()
        invariant
            i <= groups@.len(),
            gs == groups_view(groups@),
            size_in_groups(gs.take(i as int), path@) is None,
        decreases groups@.len() - i,
    {
        proof {
            assert(gs.take(i + 1).drop_last() =~= gs.take(i as int));
            assert(gs[i as int] == group_view(groups@[i as int]@));
        }
        if let Some(n) = find_in_group(&groups[i], path) {
            proof {
                lemma_first_in_groups(gs, path@, i + 1);
            }
            return Some(n);
        }
        i += 1;
    }
    assert(gs.take(i as int) =~= gs);
    None
}

proof fn lemma_sizes_at_grow(groups: Seq<Seq<FileView>>, paths: Seq<Seq<Step>>, i: int)
    requires
        0 <= i <= paths.len(),
    ensures
        sizes_at(groups, paths.take(i)) <= sizes_at(groups, paths),
    decreases paths.len(),
{
    if i < paths.len() {
        assert(paths.drop_last().take(i) =~= paths.take(i));
        lemma_sizes_at_grow(groups, paths.drop_last(), i);
    } else {
        assert(paths.take(i) =~= paths);
    }
}

fn make_span(text: String, style: SpanStyle) -> (r: StatusSpan)
    ensures
        r@ == span(text@, style),
{
    StatusSpan { text, style }
}

impl App {
    /// The number of files in all groups.
    pub fn total_duplicate_count(&self) -> (r: usize)
        requires
            self.inv(),
        ensures
            r == file_total(self@.groups),
    {
        count_listed(&self.groups)
    }

    /// Whether all copies in any group are selected for deletion.
    pub fn has_full_group_selected(&self) -> (r: bool)
        requires
            self.inv(),
        ensures
            r == some_group_fully_selected(self@),
    {
        let ghost gs = self@.groups;
        let mut g: usize = 0;
        while g < self.groups.len()
            invariant
                g <= self.groups@.len(),
                self.inv(),
                gs == self@.groups,
                forall|h: int|
                    0 <= h < g ==> !fully_selected(#[trigger] gs[h], self@.selected()),
            decreases self.groups@.len() - g,
        {
            let group = &self.groups[g];
            let ghost files = group_view(group@);
            assert(gs[g as int] == files);
            let mut all: bool = true;
            let mut i: usize = 0;
            while i < group.len()
                invariant
                    i <= group@.len(),
                    self.inv(),
                    files == group_view(group@),
                    all == forall|j: int|
                        0 <= j < i ==> self@.selected().contains(
                            (#[trigger] files[j]).path,
                        ),
                decreases group@.len() - i,
            {
                assert(files[i as int] == group@[i as int]@);
                if !self.selected_for_delete.contains(&group[i].path) {
                    all = false;
                }
                i += 1;
            }
            if all {
                assert(fully_selected(gs[g as int], self@.selected()));
                return true;
            }
            g += 1;
        }
        false
    }

    /// The bytes of what is selected, where they can be counted.
    pub fn checked_selected_size(&self) -> (r: Option<u64>)
        requires
            self.inv(),
        ensures
            match r {
                Some(n) => n == selected_size(self@),
                None => selected_size(self@) > u64::MAX,
            },
    {
        let paths = self.selected_for_delete.list();
        let ghost ps = listing(self@.selected());
        let ghost gs = self@.groups;
        let mut sum: u64 = 0;
        let mut i: usize = 0;
        assert(ps.take(0) =~= Seq::<Seq<Step>>::empty());
        while i < paths.len()
            invariant
                i <= paths@.len(),
                ps == paths_view(paths@),
                ps == listing(self@.selected()),
                gs == self@.groups,
                sum == sizes_at(gs, ps.take(i as int)),
            decreases paths@.len() - i,
        {
            proof {
                lemma_sizes_at_grow(gs, ps, i + 1);
                assert(ps.take(i + 1).drop_last() =~= ps.take(i as int));
                assert(ps.take(i + 1).last() == paths@[i as int]@);
            }
            if let Some(n) = find_in_groups(&self.groups, &paths[i]) {
                match sum.checked_add(n) {
                    Some(s) => {
                        sum = s;
                    },
                    None => {
                        return None;
                    },
                }
            }
            i += 1;
        }
        assert(ps.take(i as int) =~= ps);
        Some(sum)
    }

    /// Whether the totals of the status bar can be counted.
    pub fn status_fits(&self) -> (r: bool)
        requires
            self.inv(),
        ensures
            r == totals_fit(self@),
    {
        stats_fit(&self.groups) && self.checked_selected_size().is_some()
    }

    fn span_of_selection(&self, size: u64) -> (r: StatusSpan)
        requires
            self.inv(),
            size == selected_size(self@),
        ensures
            r@ == selection_span(self@),
    {
        let n: usize = self.selected_for_delete.len();
        let mut text = String::new();
        push_decimal(&mut text, n as u64);
        if n > 0 {
            text.append(" sel (");
            let shown = format_size(size);
            text.append(shown.as_str());
            text.append(")");
            assert(text@ =~= selection_span(self@).text);
            make_span(text, SpanStyle::Selection)
        } else {
            text.append(" sel");
            assert(text@ =~= selection_span(self@).text);
            make_span(text, SpanStyle::NoSelection)
        }
    }

    /// The parts of the status bar.
    pub fn status_bar(&self) -> (r: Vec<StatusSpan>)
        requires
            self.inv(),
            totals_fit(self@),
        ensures
            span_views(r@) == status_spans(self@),
    {
        let mut out: Vec<StatusSpan> = Vec::new();
        if let Some(note) = &self.notification {
            let mut text = String::new();
            text.append(" ✓ ");
            text.append(note.as_str());
            assert(text@ =~= " ✓ "@ + note@);
            out.push(make_span(text, SpanStyle::Notification));
            assert(span_views(out@) =~= status_spans(self@));
            return out;
        }
        let (total, wasted): (u64, u64) = size_stats(&self.groups);
        let size: u64 = match self.checked_selected_size() {
            Some(n) => n,
            None => 0,
        };
        let mut stats = String::new();
        stats.append(" ");
        push_decimal(&mut stats, self.groups.len() as u64);
        stats.append(" groups, ");
        push_decimal(&mut stats, self.total_duplicate_count() as u64);
        stats.append(" dupes");
        assert(stats@ =~= " "@ + decimal(self@.groups.len()) + " groups, "@ + decimal(
            file_total(self@.groups),
        ) + " dupes"@);
        let mut sizes = String::new();
        sizes.append("Total:");
        let shown = format_size(total);
        sizes.append(shown.as_str());
        sizes.append(" Wasted:");
        let shown = format_size(wasted);
        sizes.append(shown.as_str());
        proof {
            wasted_is_held(self@.groups);
            assert(sizes@ =~= "Total:"@ + size_text(held_total(self@.groups)) + " Wasted:"@
                + size_text(wasted_total(self@.groups) as nat));
        }
        let mut sort = String::new();
        sort.append("  Sort:");
        match self.sort_mode {
            SortMode::Name => {
                sort.append("name");
            },
            SortMode::Size => {
                sort.append("size");
            },
            SortMode::Date => {
                sort.append("date");
            },
            SortMode::Count => {
                sort.append("count");
            },
        }
        assert(sort@ =~= "  Sort:"@ + sort_label(self@.sort_mode));
        out.push(make_span(stats, SpanStyle::Stats));
        out.push(make_span("  ".to_owned(), SpanStyle::Gap));
        out.push(make_span(sizes, SpanStyle::Sizes));
        out.push(make_span("  ".to_owned(), SpanStyle::Gap));
        out.push(self.span_of_selection(size));
        if self.has_full_group_selected() {
            out.push(make_span(" ⚠ ALL COPIES SELECTED".to_owned(), SpanStyle::Warning));
        }
        if self.read_only {
            out.push(make_span(" [RO]".to_owned(), SpanStyle::ReadOnly));
        } else {
            out.push(make_span("".to_owned(), SpanStyle::ReadOnly));
        }
        out.push(make_span(sort, SpanStyle::Sort));
        assert(span_views(out@) =~= status_spans(self@));
        out
    }

    /// The keys that are of use in the pane that has the focus.
    pub fn hints(&self) -> (r: String)
        ensures
            r@ == key_hints(self@),
    {
        if self.focus_right {
            " [Space]Sel [x]KeepOne [a]SelAll [i]Invert [g]Goto [d]Del [o]Open [Tab]Pane [/]Filter [p]Preview [q]Quit".to_owned()
        } else {
            " [Space]Sel [a]SelDir [x]KeepOne [i]Invert [u]Desel [c]Collapse [e]Expand [s]Sort [d]Del [o]Open [E]Export [Tab]Pane [/]Filter [p]Preview [q]Quit".to_owned()
        }
    }
}

// ---------------------------------------------------------------------------
// Dialogs
// ---------------------------------------------------------------------------

/// How a file that is to be deleted is shown.
#[derive(Debug, Clone, Copy, PartialEq, Eq, Structural)]
pub enum ItemStyle {
    Pending,
    Done,
    Failed,
    Skipped,
}

/// A file that is to be deleted.
#[derive(Debug)]
pub struct ItemRow {
    pub text: String,
    pub style: ItemStyle,
}

/// What an `ItemRow` stands for.
pub struct ItemRowView {
    pub text: Seq<char>,
    pub style: ItemStyle,
}

impl View for ItemRow {
    type V = ItemRowView;

    open spec fn view(&self) -> ItemRowView {
        ItemRowView { text: self.text@, style: self.style }
    }
}

/// What files that are to be deleted stand for.
pub open spec fn item_views(rows: Seq<ItemRow>) -> Seq<ItemRowView> {
    rows.map_values(|r: ItemRow| r@)
}

/// The files that are asked about in the delete dialog.
pub open spec fn asked_lines(v: AppView) -> Seq<Seq<char>> {
    listed(v.selected_for_delete).map_values(
        |p: PathView| "  "@ + text_within(p, v.root.steps),
    )
}

/// The title of the delete dialog, with a warning where no copy would be left of a file.
pub open spec fn asked_title(v: AppView) -> Seq<char> {
    if some_group_fully_selected(v) {
        " ⚠ Move to trash? (ALL copies selected!) "@
    } else {
        " Move to trash? "@
    }
}

/// The label of the button that deletes for good.
pub open spec fn delete_label(v: AppView) -> Seq<char> {
    " [ Delete "@ + decimal(v.selected().len()) + " permanently ] "@
}

/// The sign before a file by what became of it.
pub open spec fn status_icon(status: StatusView) -> Seq<char> {
    match status {
        StatusView::Pending => "○"@,
        StatusView::Done => "✓"@,
        StatusView::Failed(_) => "✗"@,
        StatusView::Skipped => "–"@,
    }
}

/// How a file is shown by what became of it.
pub open spec fn status_style(status: StatusView) -> ItemStyle {
    match status {
        StatusView::Pending => ItemStyle::Pending,
        StatusView::Done => ItemStyle::Done,
        StatusView::Failed(_) => ItemStyle::Failed,
        StatusView::Skipped => ItemStyle::Skipped,
    }
}

/// The row of file `i` of a deletion.
pub open spec fn item_row(job: DeletionView, root: Seq<Step>, i: int) -> ItemRowView {
    ItemRowView {
        text: (if i == job.current {
            "►"@
        } else {
            status_icon(job.items[i].1)
        }) + " "@ + text_within(job.items[i].0, root),
        style: status_style(job.items[i].1),
    }
}

/// The rows of a deletion.
pub open spec fn item_rows(job: DeletionView, root: Seq<Step>) -> Seq<ItemRowView> {
    Seq::new(job.items.len(), |i: int| item_row(job, root, i))
}

/// The title of the dialog that shows a deletion.
pub open spec fn deleting_title(job: DeletionView) -> Seq<char> {
    if job.current >= job.items.len() {
        " Delete complete "@
    } else {
        " Deleting... (ESC to cancel) "@
    }
}

/// How far a deletion has come.
pub open spec fn deleting_label(job: DeletionView) -> Seq<char> {
    decimal(job.current as nat) + "/"@ + decimal(job.items.len())
}

/// What the dialog on a deletion that failed says.
pub open spec fn error_lines(job: DeletionView, error: Seq<char>, root: Seq<Step>) -> Seq<
    Seq<char>,
> {
    seq![
        seq![],
        "  File: "@ + text_within(job.items[job.current].0, root),
        "  Error: "@ + error,
        seq![],
    ]
}

/// What the dialog on quitting says.
pub open spec fn quit_lines(v: AppView) -> Seq<Seq<char>> {
    seq![
        seq![],
        "  "@ + decimal(v.selected().len()) + " file(s) selected but not deleted."@,
        seq![],
        "  Quit anyway? [y]es / [any key] cancel"@,
    ]
}

/// What an open dialog shows.
#[derive(Debug)]
pub enum DialogModel {
    Closed,
    ConfirmDelete {
        title: String,
        lines: Vec<String>,
        delete_label: String,
        scroll: Option<usize>,
        button: DialogButton,
    },
    Deleting {
        title: String,
        rows: Vec<ItemRow>,
        label: String,
        scroll: Option<usize>,
        current: usize,
        total: usize,
    },
    DeleteError { lines: Vec<String>, choice: DeleteErrorButton },
    ConfirmQuit { lines: Vec<String> },
    Error { lines: Vec<String> },
}

/// What a `DialogModel` stands for.
pub enum ModelView {
    Closed,
    ConfirmDelete {
        title: Seq<char>,
        lines: Seq<Seq<char>>,
        delete_label: Seq<char>,
        scroll: Option<usize>,
        button: DialogButton,
    },
    Deleting {
        title: Seq<char>,
        rows: Seq<ItemRowView>,
        label: Seq<char>,
        scroll: Option<usize>,
        current: int,
        total: int,
    },
    DeleteError { lines: Seq<Seq<char>>, choice: DeleteErrorButton },
    ConfirmQuit { lines: Seq<Seq<char>> },
    Error { lines: Seq<Seq<char>> },
}

impl View for DialogModel {
    type V = ModelView;

    open spec fn view(&self) -> ModelView {
        match self {
            DialogModel::Closed => ModelView::Closed,
            DialogModel::ConfirmDelete { title, lines, delete_label, scroll, button } =>
                ModelView::ConfirmDelete {
                title: title@,
                lines: lines_view(lines@),
                delete_label: delete_label@,
                scroll: *scroll,
                button: *button,
            },
            DialogModel::Deleting { title, rows, label, scroll, current, total } =>
                ModelView::Deleting {
                title: title@,
                rows: item_views(rows@),
                label: label@,
                scroll: *scroll,
                current: *current as int,
                total: *total as int,
            },
            DialogModel::DeleteError { lines, choice } => ModelView::DeleteError {
                lines: lines_view(lines@),
                choice: *choice,
            },
            DialogModel::ConfirmQuit { lines } => ModelView::ConfirmQuit {
                lines: lines_view(lines@),
            },
            DialogModel::Error { lines } => ModelView::Error { lines: lines_view(lines@) },
        }
    }
}

/// What the dialog that is open shows.
pub open spec fn dialog_shown(v: AppView) -> ModelView {
    match v.dialog {
        DialogView::Closed => ModelView::Closed,
        DialogView::ConfirmDelete { scroll, button } => ModelView::ConfirmDelete {
            title: asked_title(v),
            lines: asked_lines(v),
            delete_label: delete_label(v),
            scroll,
            button,
        },
        DialogView::Deleting { job, scroll } => ModelView::Deleting {
            title: deleting_title(job),
            rows: item_rows(job, v.root.steps),
            label: deleting_label(job),
            scroll,
            current: job.current,
            total: job.items.len() as int,
        },
        DialogView::DeleteError { job, error, choice } => ModelView::DeleteError {
            lines: error_lines(job, error, v.root.steps),
            choice,
        },
        DialogView::ConfirmQuit => ModelView::ConfirmQuit { lines: quit_lines(v) },
        DialogView::Error(texts) => ModelView::Error { lines: texts },
    }
}

fn row_of_item(job: &Deletion, i: usize, root: &FilePath) -> (r: ItemRow)
    requires
        i < job.items@.len(),
    ensures
        r@ == item_row(job@, root@, i as int),
{
    let mut text = String::new();
    let status = &job.items[i].1;
    assert(job@.items[i as int] == (job.items@[i as int].0.full(), job.items@[i as int].1@));
    let style = match status {
        DeleteStatus::Pending => ItemStyle::Pending,
        DeleteStatus::Done => ItemStyle::Done,
        DeleteStatus::Failed(_) => ItemStyle::Failed,
        DeleteStatus::Skipped => ItemStyle::Skipped,
    };
    if i == job.current {
        text.append("►");
    } else {
        match status {
            DeleteStatus::Pending => {
                text.append("○");
            },
            DeleteStatus::Done => {
                text.append("✓");
            },
            DeleteStatus::Failed(_) => {
                text.append("✗");
            },
            DeleteStatus::Skipped => {
                text.append("–");
            },
        }
    }
    text.append(" ");
    let shown = job.items[i].0.within(root).to_text();
    text.append(shown.as_str());
    let r = ItemRow { text, style };
    assert(r@.text =~= item_row(job@, root@, i as int).text);
    r
}

fn rows_of_items(job: &Deletion, root: &FilePath) -> (r: Vec<ItemRow>)
    ensures
        item_views(r@) == item_rows(job@, root@),
{
    let mut out: Vec<ItemRow> = Vec::new();
    let mut i: usize = 0;
    while i < job.items.len()
        invariant
            i <= job.items@.len(),
            out@.len() == i,
            forall|j: int| 0 <= j < i ==> (#[trigger] out@[j])@ == item_row(job@, root@, j),
        decreases job.items@.len() - i,
    {
        out.push(row_of_item(job, i, root));
        i += 1;
    }
    assert(item_views(out@) =~= item_rows(job@, root@));
    out
}

fn lines_of_error(job: &Deletion, error: &String, root: &FilePath) -> (r: Vec<String>)
    requires
        job@.current < job@.items.len(),
    ensures
        lines_view(r@) == error_lines(job@, error@, root@),
{
    let mut file = String::new();
    file.append("  File: ");
    let shown = job.items[job.current].0.within(root).to_text();
    file.append(shown.as_str());
    let mut what = String::new();
    what.append("  Error: ");
    what.append(error.as_str());
    let ghost lines = error_lines(job@, error@, root@);
    assert(file@ =~= lines[1]);
    assert(what@ =~= lines[2]);
    let mut out: Vec<String> = Vec::new();
    out.push(String::new());
    out.push(file);
    out.push(what);
    out.push(String::new());
    assert(lines_view(out@)[0] =~= lines[0]);
    assert(lines_view(out@)[3] =~= lines[3]);
    assert(lines_view(out@) =~= lines);
    out
}

fn copy_texts(texts: &Vec<String>) -> (r: Vec<String>)
    ensures
        lines_view(r@) == lines_view(texts@),
{
    let mut out: Vec<String> = Vec::new();
    let mut i: usize = 0;
    while i < texts.len()
        invariant
            i <= texts@.len(),
            out@.len() == i,
            forall|j: int| 0 <= j < i ==> (#[trigger] out@[j])@ == texts@[j]@,
        decreases texts@.len() - i,
    {
        out.push(texts[i].as_str().to_owned());
        i += 1;
    }
    assert(lines_view(out@) =~= lines_view(texts@));
    out
}

impl App {
    fn lines_asked(&self) -> (r: Vec<String>)
        requires
            self.inv(),
        ensures
            lines_view(r@) == asked_lines(self@),
    {
        let paths = self.selected_for_delete.list();
        let ghost ps = listed(self@.selected_for_delete);
        let ghost lines = asked_lines(self@);
        let mut out: Vec<String> = Vec::new();
        let mut i: usize = 0;
        while i < paths.len()
            invariant
                i <= paths@.len(),
                ps == full_paths_view(paths@),
                ps == listed(self@.selected_for_delete),
                lines == asked_lines(self@),
                out@.len() == i,
                forall|j: int| 0 <= j < i ==> (#[trigger] out@[j])@ == lines[j],
            decreases paths@.len() - i,
        {
            assert(ps[i as int] == paths@[i as int].full());
            let mut line = String::new();
            line.append("  ");
            let shown = paths[i].within(&self.root).to_text();
            line.append(shown.as_str());
            assert(line@ =~= lines[i as int]);
            out.push(line);
            i += 1;
        }
        assert(lines_view(out@) =~= lines);
        out
    }

    fn lines_on_quitting(&self) -> (r: Vec<String>)
        requires
            self.inv(),
        ensures
            lines_view(r@) == quit_lines(self@),
    {
        let mut what = String::new();
        what.append("  ");
        push_decimal(&mut what, self.selected_for_delete.len() as u64);
        what.append(" file(s) selected but not deleted.");
        let ghost lines = quit_lines(self@);
        assert(what@ =~= lines[1]);
        let mut out: Vec<String> = Vec::new();
        out.push(String::new());
        out.push(what);
        out.push(String::new());
        out.push("  Quit anyway? [y]es / [any key] cancel".to_owned());
        assert(lines_view(out@)[0] =~= lines[0]);
        assert(lines_view(out@)[2] =~= lines[2]);
        assert(lines_view(out@) =~= lines);
        out
    }

    /// What the dialog that is open shows.
    pub fn dialog_model(&self) -> (r: DialogModel)
        requires
            self.inv(),
        ensures
            r@ == dialog_shown(self@),
    {
        match &self.dialog {
            DialogState::Closed => DialogModel::Closed,
            DialogState::ConfirmDelete { scroll, button } => {
                let title: String = if self.has_full_group_selected() {
                    " ⚠ Move to trash? (ALL copies selected!) ".to_owned()
                } else {
                    " Move to trash? ".to_owned()
                };
                let mut delete_label = String::new();
                delete_label.append(" [ Delete ");
                push_decimal(&mut delete_label, self.selected_for_delete.len() as u64);
                delete_label.append(" permanently ] ");
                assert(delete_label@ =~= self::delete_label(self@));
                DialogModel::ConfirmDelete {
                    title,
                    lines: self.lines_asked(),
                    delete_label,
                    scroll: *scroll,
                    button: *button,
                }
            },
            DialogState::Deleting { job, scroll } => {
                let title: String = if job.current >= job.items.len() {
                    " Delete complete ".to_owned()
                } else {
                    " Deleting... (ESC to cancel) ".to_owned()
                };
                let mut label = String::new();
                push_decimal(&mut label, job.current as u64);
                label.append("/");
                push_decimal(&mut label, job.items.len() as u64);
                assert(label@ =~= deleting_label(job@));
                DialogModel::Deleting {
                    title,
                    rows: rows_of_items(job, &self.root),
                    label,
                    scroll: *scroll,
                    current: job.current,
                    total: job.items.len(),
                }
            },
            DialogState::DeleteError { job, error, choice } => DialogModel::DeleteError {
                lines: lines_of_error(job, error, &self.root),
                choice: *choice,
            },
            DialogState::ConfirmQuit => DialogModel::ConfirmQuit {
                lines: self.lines_on_quitting(),
            },
            DialogState::Error(texts) => {
                let lines = copy_texts(texts);
                assert(lines_view(lines@) =~= texts_view(texts@));
                DialogModel::Error { lines }
            },
        }
    }
}

} // verus!
