//! What keys and the mouse do.
use vstd::prelude::*;

use crate::app::{
    at_bottom, at_top, back, chosen_file, current_node, further, moved_down, moved_up, page_rows,
    step_down, step_up, target, texts_view, App, AppView, DeleteErrorButton, DeleteStatus, Deletion,
    DialogButton, DialogState, DialogView,
};
use crate::deletion::{
    delete_asked, delete_begun, give_up, given_up, no_further, passed_over, synced, trash_of,
};
use crate::outline::{
    ascii_filtered, ascii_paths, collapsed, expanded, rebuilt, resorted, shown_in_tree,
};
use crate::path::{full_join_text, full_path_view, path_name, shown_text, FilePath, PathView, Step};
use crate::record::FileView;
use crate::report::{csv_report, report_csv};
use crate::selection::{all_selected, inverted, kept_one, selecting, toggled_dir, toggled_selection};
use crate::text::{
    chars_of, decode_lossy, is_ascii_text, lossy_text, string_of_range, trim, trimmed,
};
use crate::tree::tree_of;

verus! {

// ---------------------------------------------------------------------------
// Keys and what follows from them
// ---------------------------------------------------------------------------

/// A key that was pressed.
#[derive(Debug, Clone, Copy, PartialEq, Eq, Structural)]
pub enum KeyPress {
    Esc,
    Enter,
    Backspace,
    Tab,
    Up,
    Down,
    Left,
    Right,
    Home,
    End,
    PageUp,
    PageDown,
    Char(char),
    Other,
}

/// What is to be done outside after a key.
#[derive(Debug)]
pub enum Effect {
    Nothing,
    /// Leave the program.
    Quit,
    /// Make the directory for files that are moved, and begin to move them.
    PrepareTrash { dir: FilePath },
    /// Open the file with the program that the system has for it.
    Open { path: FilePath },
    /// Write the report.
    WriteReport { path: FilePath, text: String },
}

/// What an `Effect` stands for.
pub enum EffectView {
    Nothing,
    Quit,
    PrepareTrash { dir: PathView },
    Open { path: PathView },
    WriteReport { path: PathView, text: Seq<char> },
}

impl View for Effect {
    type V = EffectView;

    open spec fn view(&self) -> EffectView {
        match self {
            Effect::Nothing => EffectView::Nothing,
            Effect::Quit => EffectView::Quit,
            Effect::PrepareTrash { dir } => EffectView::PrepareTrash { dir: dir.full() },
            Effect::Open { path } => EffectView::Open { path: path.full() },
            Effect::WriteReport { path, text } => EffectView::WriteReport {
                path: path.full(),
                text: text@,
            },
        }
    }
}

/// The state with another dialog.
pub open spec fn with_dialog(v: AppView, dialog: DialogView) -> AppView {
    AppView { dialog, ..v }
}

/// What a key does while the filter is typed.
pub open spec fn filter_key(v: AppView, key: KeyPress) -> AppView {
    match key {
        KeyPress::Esc => rebuilt(AppView { filtering: false, filter: seq![], ..v }),
        KeyPress::Enter => AppView { filtering: false, ..v },
        KeyPress::Backspace => rebuilt(
            AppView {
                filter: if v.filter.len() > 0 {
                    v.filter.drop_last()
                } else {
                    v.filter
                },
                ..v
            },
        ),
        KeyPress::Char(c) => rebuilt(AppView { filter: v.filter.push(c), ..v }),
        _ => v,
    }
}

/// The path that is to be opened: the copy that is highlighted, or the node in the tree.
pub open spec fn path_to_open(v: AppView) -> Option<PathView> {
    if v.focus_right {
        target(v)
    } else {
        match current_node(v) {
            Some(node) => Some(node.full_path()),
            None => None,
        }
    }
}

/// Where the report is written.
pub open spec fn report_path(root: PathView) -> PathView {
    full_join_text(root, "dupfinder_report.csv"@)
}

/// The state with the preview shown or hidden.
pub open spec fn preview_switched(v: AppView) -> AppView {
    AppView {
        show_preview: !v.show_preview,
        preview: if v.show_preview {
            None
        } else {
            v.preview
        },
        ..v
    }
}

/// What a key does where no dialog is open.
pub open spec fn main_key(v: AppView, key: KeyPress) -> (AppView, EffectView) {
    match key {
        KeyPress::Esc => quit_key(v),
        KeyPress::Tab => (AppView { focus_right: !v.focus_right, ..v }, EffectView::Nothing),
        KeyPress::Down => (moved_down(v, 1), EffectView::Nothing),
        KeyPress::Up => (moved_up(v, 1), EffectView::Nothing),
        KeyPress::Home => (at_top(v), EffectView::Nothing),
        KeyPress::End => (at_bottom(v), EffectView::Nothing),
        KeyPress::PageDown => (moved_down(v, page_rows(v.terminal_height)), EffectView::Nothing),
        KeyPress::PageUp => (moved_up(v, page_rows(v.terminal_height)), EffectView::Nothing),
        KeyPress::Enter => (toggled_dir(v), EffectView::Nothing),
        KeyPress::Char(c) => char_key(v, c),
        _ => (v, EffectView::Nothing),
    }
}

/// Quitting is confirmed first where files are selected.
pub open spec fn quit_key(v: AppView) -> (AppView, EffectView) {
    if v.selected() == Set::<Seq<Step>>::empty() {
        (v, EffectView::Quit)
    } else {
        (with_dialog(v, DialogView::ConfirmQuit), EffectView::Nothing)
    }
}

/// What a letter does where no dialog is open.
pub open spec fn char_key(v: AppView, c: char) -> (AppView, EffectView) {
    if c == 'q' {
        quit_key(v)
    } else if c == 'j' {
        (moved_down(v, 1), EffectView::Nothing)
    } else if c == 'k' {
        (moved_up(v, 1), EffectView::Nothing)
    } else if c == ' ' {
        (toggled_selection(v), EffectView::Nothing)
    } else if c == 'd' {
        (
            if v.read_only {
                v
            } else {
                delete_asked(v)
            },
            EffectView::Nothing,
        )
    } else if c == 'S' {
        (
            if v.read_only {
                v
            } else {
                synced(v)
            },
            EffectView::Nothing,
        )
    } else if c == 'a' {
        (all_selected(v), EffectView::Nothing)
    } else if c == 's' {
        (resorted(v), EffectView::Nothing)
    } else if c == 'p' {
        (preview_switched(v), EffectView::Nothing)
    } else if c == 'g' {
        (shown_in_tree(v), EffectView::Nothing)
    } else if c == 'u' {
        (selecting(v, Map::empty()), EffectView::Nothing)
    } else if c == 'x' {
        (kept_one(v), EffectView::Nothing)
    } else if c == 'i' {
        (inverted(v), EffectView::Nothing)
    } else if c == 'c' {
        (collapsed(v), EffectView::Nothing)
    } else if c == 'e' {
        (expanded(v), EffectView::Nothing)
    } else if c == 'o' {
        match path_to_open(v) {
            Some(path) => (v, EffectView::Open { path }),
            None => (v, EffectView::Nothing),
        }
    } else if c == 'E' {
        (
            AppView {
                notification: Some("Exported to "@ + shown_text(report_path(v.root).written)),
                ..v
            },
            EffectView::WriteReport {
                path: report_path(v.root),
                text: csv_report(v.groups, v.root.steps),
            },
        )
    } else if c == '/' {
        (AppView { filtering: true, ..v }, EffectView::Nothing)
    } else {
        (v, EffectView::Nothing)
    }
}

/// The button to the left, round about.
pub open spec fn button_left(b: DialogButton) -> DialogButton {
    match b {
        DialogButton::Cancel => DialogButton::DeletePermanently,
        DialogButton::Trash => DialogButton::Cancel,
        DialogButton::DeletePermanently => DialogButton::Trash,
    }
}

/// The button to the right, round about.
pub open spec fn button_right(b: DialogButton) -> DialogButton {
    match b {
        DialogButton::Cancel => DialogButton::Trash,
        DialogButton::Trash => DialogButton::DeletePermanently,
        DialogButton::DeletePermanently => DialogButton::Cancel,
    }
}

/// What a key does in the delete dialog.
pub open spec fn confirm_key(
    v: AppView,
    scroll: Option<usize>,
    button: DialogButton,
    key: KeyPress,
) -> (AppView, EffectView) {
    let len = v.selected().len();
    let down = with_dialog(
        v,
        DialogView::ConfirmDelete {
            scroll: if len > 0 {
                Some(further(scroll, 1, len as int))
            } else {
                scroll
            },
            button,
        },
    );
    let up = with_dialog(v, DialogView::ConfirmDelete { scroll: Some(back(scroll, 1)), button });
    match key {
        KeyPress::Enter => match button {
            DialogButton::Trash => (v, EffectView::PrepareTrash { dir: trash_of(v.root) }),
            DialogButton::DeletePermanently => (delete_begun(v, true, None), EffectView::Nothing),
            DialogButton::Cancel => (with_dialog(v, DialogView::Closed), EffectView::Nothing),
        },
        KeyPress::Left => (
            with_dialog(v, DialogView::ConfirmDelete { scroll, button: button_left(button) }),
            EffectView::Nothing,
        ),
        KeyPress::Right | KeyPress::Tab => (
            with_dialog(v, DialogView::ConfirmDelete { scroll, button: button_right(button) }),
            EffectView::Nothing,
        ),
        KeyPress::Esc => (with_dialog(v, DialogView::Closed), EffectView::Nothing),
        KeyPress::Down => (down, EffectView::Nothing),
        KeyPress::Up => (up, EffectView::Nothing),
        KeyPress::Char(c) => if c == 'j' {
            (down, EffectView::Nothing)
        } else if c == 'k' {
            (up, EffectView::Nothing)
        } else {
            (v, EffectView::Nothing)
        },
        _ => (v, EffectView::Nothing),
    }
}

/// The button after another, round about.
pub open spec fn next_choice(b: DeleteErrorButton) -> DeleteErrorButton {
    match b {
        DeleteErrorButton::Retry => DeleteErrorButton::Skip,
        DeleteErrorButton::Skip => DeleteErrorButton::Cancel,
        DeleteErrorButton::Cancel => DeleteErrorButton::Retry,
    }
}

/// What a key does where a dialog is open.
pub open spec fn dialog_key(v: AppView, key: KeyPress) -> (AppView, EffectView) {
    match v.dialog {
        DialogView::Closed => main_key(v, key),
        DialogView::ConfirmDelete { scroll, button } => confirm_key(v, scroll, button, key),
        DialogView::Deleting { job, scroll } => (
            if key == KeyPress::Esc {
                with_dialog(v, DialogView::Deleting { job: given_up(job), scroll })
            } else {
                v
            },
            EffectView::Nothing,
        ),
        DialogView::DeleteError { job, error, choice } => (
            with_dialog(
                v,
                match key {
                    KeyPress::Left | KeyPress::Right | KeyPress::Tab => DialogView::DeleteError {
                        job,
                        error,
                        choice: next_choice(choice),
                    },
                    KeyPress::Enter => match choice {
                        DeleteErrorButton::Retry => DialogView::Deleting {
                            job,
                            scroll: Some(job.current as usize),
                        },
                        DeleteErrorButton::Skip => DialogView::Deleting {
                            job: passed_over(job),
                            scroll: Some(no_further(job.current + 1, job.items.len() as int)),
                        },
                        DeleteErrorButton::Cancel => DialogView::Deleting {
                            job: given_up(job),
                            scroll: None,
                        },
                    },
                    KeyPress::Esc => DialogView::Deleting { job: given_up(job), scroll: None },
                    _ => v.dialog,
                },
            ),
            EffectView::Nothing,
        ),
        DialogView::ConfirmQuit => if key == KeyPress::Enter || key == KeyPress::Char('y') {
            (v, EffectView::Quit)
        } else {
            (with_dialog(v, DialogView::Closed), EffectView::Nothing)
        },
        DialogView::Error(_) => (with_dialog(v, DialogView::Closed), EffectView::Nothing),
    }
}

/// What a key does.
pub open spec fn pressed(v: AppView, key: KeyPress) -> (AppView, EffectView) {
    if v.filtering {
        (filter_key(v, key), EffectView::Nothing)
    } else {
        dialog_key(v, key)
    }
}

impl App {
    fn press_in_filter(&mut self, key: KeyPress)
        requires
            old(self).inv(),
        ensures
            final(self).inv(),
            final(self)@ == filter_key(old(self)@, key),
            key is Char || key is Backspace || key is Esc ==> is_ascii_text(final(self)@.filter)
                && ascii_paths(final(self)@.groups) ==> final(self)@.tree == tree_of(
                ascii_filtered(final(self)@.groups, final(self)@.filter),
                final(self)@.root,
            ),
    {
        match key {
            KeyPress::Esc => {
                self.filtering = false;
                self.filter = String::new();
                assert(self@.filter =~= Seq::<char>::empty());
                self.rebuild_tree();
            },
            KeyPress::Enter => {
                self.filtering = false;
            },
            KeyPress::Backspace => {
                let chars = chars_of(self.filter.as_str());
                if chars.len() > 0 {
                    let shorter = string_of_range(&chars, 0, chars.len() - 1);
                    assert(shorter@ =~= self@.filter.drop_last());
                    self.filter = shorter;
                }
                self.rebuild_tree();
            },
            KeyPress::Char(c) => {
                self.filter.push(c);
                self.rebuild_tree();
            },
            _ => {},
        }
    }

    fn press_quit(&mut self) -> (r: Effect)
        requires
            old(self).inv(),
        ensures
            final(self).inv(),
            (final(self)@, r@) == quit_key(old(self)@),
    {
        if self.selected_for_delete.is_empty() {
            Effect::Quit
        } else {
            self.dialog = DialogState::ConfirmQuit;
            Effect::Nothing
        }
    }

    /// The path that is to be opened.
    fn open_target(&self) -> (r: Option<FilePath>)
        requires
            self.inv(),
        ensures
            full_path_view(r) == path_to_open(self@),
    {
        if self.focus_right {
            self.target_path()
        } else {
            match self.current() {
                Some(node) => Some(node.path.clone()),
                None => None,
            }
        }
    }

    /// Writes the report, and says so.
    pub fn export_report(&mut self) -> (r: Effect)
        requires
            old(self).inv(),
        ensures
            final(self).inv(),
            (final(self)@, r@) == char_key(old(self)@, 'E'),
    {
        let path = self.root.join_text("dupfinder_report.csv");
        let text = report_csv(&self.groups, &self.root);
        let mut note = String::new();
        note.append("Exported to ");
        let shown = path.to_text();
        note.append(shown.as_str());
        assert(note@ =~= "Exported to "@ + shown_text(report_path(self@.root).written));
        self.notification = Some(note);
        Effect::WriteReport { path, text }
    }

    fn press_char(&mut self, c: char) -> (r: Effect)
        requires
            old(self).inv(),
        ensures
            final(self).inv(),
            (final(self)@, r@) == char_key(old(self)@, c),
    {
        if c == 'q' {
            return self.press_quit();
        } else if c == 'j' {
            self.move_down();
        } else if c == 'k' {
            self.move_up();
        } else if c == ' ' {
            self.toggle_select();
        } else if c == 'd' {
            if !self.read_only {
                self.open_delete_dialog();
            }
        } else if c == 'S' {
            if !self.read_only {
                self.sync_all();
            }
        } else if c == 'a' {
            self.select_all_in_group();
        } else if c == 's' {
            self.cycle_sort();
        } else if c == 'p' {
            self.show_preview = !self.show_preview;
            if !self.show_preview {
                self.preview = None;
            }
        } else if c == 'g' {
            self.goto_file_directory();
        } else if c == 'u' {
            self.deselect_all();
        } else if c == 'x' {
            self.keep_one_select_rest();
        } else if c == 'i' {
            self.invert_selection();
        } else if c == 'c' {
            self.collapse_all();
        } else if c == 'e' {
            self.expand_all();
        } else if c == 'o' {
            if let Some(path) = self.open_target() {
                return Effect::Open { path };
            }
        } else if c == 'E' {
            return self.export_report();
        } else if c == '/' {
            self.filtering = true;
        }
        Effect::Nothing
    }

    fn press_in_tree(&mut self, key: KeyPress) -> (r: Effect)
        requires
            old(self).inv(),
        ensures
            final(self).inv(),
            (final(self)@, r@) == main_key(old(self)@, key),
    {
        match key {
            KeyPress::Esc => {
                return self.press_quit();
            },
            KeyPress::Tab => {
                self.focus_right = !self.focus_right;
            },
            KeyPress::Down => {
                self.move_down();
            },
            KeyPress::Up => {
                self.move_up();
            },
            KeyPress::Home => {
                self.jump_top();
            },
            KeyPress::End => {
                self.jump_bottom();
            },
            KeyPress::PageDown => {
                self.page_down();
            },
            KeyPress::PageUp => {
                self.page_up();
            },
            KeyPress::Enter => {
                self.toggle();
            },
            KeyPress::Char(c) => {
                return self.press_char(c);
            },
            _ => {},
        }
        Effect::Nothing
    }
}

// ---------------------------------------------------------------------------
// Keys in dialogs
// ---------------------------------------------------------------------------

fn to_the_left(b: DialogButton) -> (r: DialogButton)
    ensures
        r == button_left(b),
{
    match b {
        DialogButton::Cancel => DialogButton::DeletePermanently,
        DialogButton::Trash => DialogButton::Cancel,
        DialogButton::DeletePermanently => DialogButton::Trash,
    }
}

fn to_the_right(b: DialogButton) -> (r: DialogButton)
    ensures
        r == button_right(b),
{
    match b {
        DialogButton::Cancel => DialogButton::Trash,
        DialogButton::Trash => DialogButton::DeletePermanently,
        DialogButton::DeletePermanently => DialogButton::Cancel,
    }
}

fn choice_after(b: DeleteErrorButton) -> (r: DeleteErrorButton)
    ensures
        r == next_choice(b),
{
    match b {
        DeleteErrorButton::Retry => DeleteErrorButton::Skip,
        DeleteErrorButton::Skip => DeleteErrorButton::Cancel,
        DeleteErrorButton::Cancel => DeleteErrorButton::Retry,
    }
}

fn pass_over(job: &mut Deletion)
    requires
        old(job)@.current < old(job)@.items.len(),
    ensures
        final(job)@ == passed_over(old(job)@),
{
    let ghost before = job@;
    let at: usize = job.current;
    let path = job.items[at].0.clone();
    job.items.set(at, (path, DeleteStatus::Failed("Skipped".to_owned())));
    job.current = at + 1;
    assert(job@.items =~= passed_over(before).items);
}

fn press_in_error(job: Deletion, error: String, choice: DeleteErrorButton, key: KeyPress) -> (r:
    DialogState)
    requires
        job@.current < job@.items.len(),
    ensures
        r@ == match key {
            KeyPress::Left | KeyPress::Right | KeyPress::Tab => DialogView::DeleteError {
                job: job@,
                error: error@,
                choice: next_choice(choice),
            },
            KeyPress::Enter => match choice {
                DeleteErrorButton::Retry => DialogView::Deleting {
                    job: job@,
                    scroll: Some(job@.current as usize),
                },
                DeleteErrorButton::Skip => DialogView::Deleting {
                    job: passed_over(job@),
                    scroll: Some(no_further(job@.current + 1, job@.items.len() as int)),
                },
                DeleteErrorButton::Cancel => DialogView::Deleting {
                    job: given_up(job@),
                    scroll: None,
                },
            },
            KeyPress::Esc => DialogView::Deleting { job: given_up(job@), scroll: None },
            _ => DialogView::DeleteError { job: job@, error: error@, choice },
        },
{
    let mut job = job;
    match key {
        KeyPress::Left | KeyPress::Right | KeyPress::Tab => DialogState::DeleteError {
            job,
            error,
            choice: choice_after(choice),
        },
        KeyPress::Enter => match choice {
            DeleteErrorButton::Retry => {
                let at: usize = job.current;
                DialogState::Deleting { job, scroll: Some(at) }
            },
            DeleteErrorButton::Skip => {
                let len: usize = job.items.len();
                let next: usize = job.current + 1;
                pass_over(&mut job);
                DialogState::Deleting {
                    job,
                    scroll: Some(
                        if next < len {
                            next
                        } else {
                            len - 1
                        },
                    ),
                }
            },
            DeleteErrorButton::Cancel => {
                give_up(&mut job);
                DialogState::Deleting { job, scroll: None }
            },
        },
        KeyPress::Esc => {
            give_up(&mut job);
            DialogState::Deleting { job, scroll: None }
        },
        _ => DialogState::DeleteError { job, error, choice },
    }
}

impl App {
    fn scroll_down(&self, scroll: Option<usize>) -> (r: Option<usize>)
        requires
            self.inv(),
        ensures
            r == if self@.selected().len() > 0 {
                Some(further(scroll, 1, self@.selected().len() as int))
            } else {
                scroll
            },
    {
        let len: usize = self.selected_for_delete.len();
        if len > 0 {
            Some(step_down(scroll, 1, len))
        } else {
            scroll
        }
    }

    fn press_in_confirm(&mut self, scroll: Option<usize>, button: DialogButton, key: KeyPress) -> (r:
        Effect)
        requires
            old(self).inv(),
            old(self)@.dialog == (DialogView::ConfirmDelete { scroll, button }),
        ensures
            final(self).inv(),
            (final(self)@, r@) == confirm_key(old(self)@, scroll, button, key),
    {
        match key {
            KeyPress::Enter => match button {
                DialogButton::Trash => {
                    return Effect::PrepareTrash { dir: self.trash_dir() };
                },
                DialogButton::DeletePermanently => {
                    self.execute_delete(true, None);
                },
                DialogButton::Cancel => {
                    self.dialog = DialogState::Closed;
                },
            },
            KeyPress::Left => {
                self.dialog = DialogState::ConfirmDelete { scroll, button: to_the_left(button) };
            },
            KeyPress::Right | KeyPress::Tab => {
                self.dialog = DialogState::ConfirmDelete { scroll, button: to_the_right(button) };
            },
            KeyPress::Esc => {
                self.dialog = DialogState::Closed;
            },
            KeyPress::Down => {
                let row: Option<usize> = self.scroll_down(scroll);
                self.dialog = DialogState::ConfirmDelete { scroll: row, button };
            },
            KeyPress::Up => {
                self.dialog = DialogState::ConfirmDelete {
                    scroll: Some(step_up(scroll, 1)),
                    button,
                };
            },
            KeyPress::Char(c) => {
                if c == 'j' {
                    let row: Option<usize> = self.scroll_down(scroll);
                    self.dialog = DialogState::ConfirmDelete { scroll: row, button };
                } else if c == 'k' {
                    self.dialog = DialogState::ConfirmDelete {
                        scroll: Some(step_up(scroll, 1)),
                        button,
                    };
                }
            },
            _ => {},
        }
        Effect::Nothing
    }

    /// Does what a key does, and says what is to be done outside.
    pub fn handle_key(&mut self, key: KeyPress) -> (r: Effect)
        requires
            old(self).inv(),
        ensures
            final(self).inv(),
            (final(self)@, r@) == pressed(old(self)@, key),
            old(self)@.filtering && (key is Char || key is Backspace || key is Esc)
                ==> is_ascii_text(final(self)@.filter) && ascii_paths(final(self)@.groups)
                ==> final(self)@.tree == tree_of(
                ascii_filtered(final(self)@.groups, final(self)@.filter),
                final(self)@.root,
            ),
    {
        if self.filtering {
            self.press_in_filter(key);
            return Effect::Nothing;
        }
        let mut dialog = DialogState::Closed;
        std::mem::swap(&mut self.dialog, &mut dialog);
        match dialog {
            DialogState::Closed => self.press_in_tree(key),
            DialogState::ConfirmDelete { scroll, button } => {
                self.dialog = DialogState::ConfirmDelete { scroll, button };
                self.press_in_confirm(scroll, button, key)
            },
            DialogState::Deleting { job, scroll } => {
                let mut job = job;
                if key == KeyPress::Esc {
                    give_up(&mut job);
                }
                self.dialog = DialogState::Deleting { job, scroll };
                Effect::Nothing
            },
            DialogState::DeleteError { job, error, choice } => {
                self.dialog = press_in_error(job, error, choice, key);
                Effect::Nothing
            },
            DialogState::ConfirmQuit => {
                let sure: bool = match key {
                    KeyPress::Enter => true,
                    KeyPress::Char(c) => c == 'y',
                    _ => false,
                };
                if sure {
                    self.dialog = DialogState::ConfirmQuit;
                    Effect::Quit
                } else {
                    Effect::Nothing
                }
            },
            DialogState::Error(_) => Effect::Nothing,
        }
    }
}

// ---------------------------------------------------------------------------
// The mouse
// ---------------------------------------------------------------------------

/// What the mouse did.
#[derive(Debug, Clone, Copy, PartialEq, Eq, Structural)]
pub enum MouseAction {
    ScrollDown,
    ScrollUp,
    Press { column: u16 },
    Other,
}

/// What the mouse does in a terminal of that width: scrolling moves the highlight, and a press
/// gives the focus to the pane that it hits. The tree has two fifths of the width.
pub open spec fn moused(v: AppView, action: MouseAction, width: u16) -> AppView {
    match action {
        MouseAction::ScrollDown => moved_down(v, 1),
        MouseAction::ScrollUp => moved_up(v, 1),
        MouseAction::Press { column } => AppView {
            focus_right: column >= width * 40 / 100,
            ..v
        },
        MouseAction::Other => v,
    }
}

impl App {
    /// Does what the mouse does.
    pub fn handle_mouse(&mut self, action: MouseAction, width: u16)
        requires
            old(self).inv(),
        ensures
            final(self).inv(),
            final(self)@ == moused(old(self)@, action, width),
    {
        match action {
            MouseAction::ScrollDown => {
                self.move_down();
            },
            MouseAction::ScrollUp => {
                self.move_up();
            },
            MouseAction::Press { column } => {
                let left_width: u32 = width as u32 * 40 / 100;
                self.focus_right = column as u32 >= left_width;
            },
            MouseAction::Other => {},
        }
    }
}

// ---------------------------------------------------------------------------
// What comes back from outside
// ---------------------------------------------------------------------------

/// What became of opening a file.
#[derive(Debug)]
pub enum OpenOutcome {
    Opened,
    /// The program failed, and wrote this.
    Refused(Vec<u8>),
    /// The program could not be started.
    Failed(String),
}

/// What an `OpenOutcome` stands for.
pub enum OutcomeView {
    Opened,
    Refused(Seq<u8>),
    Failed(Seq<char>),
}

impl View for OpenOutcome {
    type V = OutcomeView;

    open spec fn view(&self) -> OutcomeView {
        match self {
            OpenOutcome::Opened => OutcomeView::Opened,
            OpenOutcome::Refused(b) => OutcomeView::Refused(b@),
            OpenOutcome::Failed(s) => OutcomeView::Failed(s@),
        }
    }
}

/// What a path is called in a message: the name at its end.
pub open spec fn shown_name(path: Seq<Step>) -> Seq<char> {
    match path_name(path) {
        Some(name) => lossy_text(name),
        None => seq![],
    }
}

/// The state once it is known what became of opening a file.
pub open spec fn opened(v: AppView, path: Seq<Step>, outcome: OutcomeView) -> AppView {
    match outcome {
        OutcomeView::Opened => AppView {
            notification: Some("Opened: "@ + shown_name(path)),
            ..v
        },
        OutcomeView::Refused(bytes) => with_dialog(
            v,
            DialogView::Error(seq!["Failed to open: "@ + trim(lossy_text(bytes))]),
        ),
        OutcomeView::Failed(e) => with_dialog(
            v,
            DialogView::Error(seq!["Failed to open: "@ + e]),
        ),
    }
}

/// Whether the preview of a file is at hand.
pub open spec fn at_hand(v: AppView, f: FileView) -> bool {
    match v.preview {
        Some(path) => path.steps == f.path,
        None => false,
    }
}

/// The state once the preview for the highlighted file was asked for: one of another file is
/// given up.
pub open spec fn preview_checked(v: AppView) -> AppView {
    if !v.show_preview {
        v
    } else {
        match chosen_file(v) {
            Some((f, _)) => if at_hand(v, f) {
                v
            } else {
                AppView { preview: None, ..v }
            },
            None => AppView { preview: None, ..v },
        }
    }
}

/// The file whose preview is wanted and not at hand.
pub open spec fn wanted_preview(v: AppView) -> Option<PathView> {
    if !v.show_preview {
        None
    } else {
        match chosen_file(v) {
            Some((f, _)) => if at_hand(v, f) {
                None
            } else {
                Some(f.full_path())
            },
            None => None,
        }
    }
}

/// For how many seconds a notification is shown.
pub const NOTIFICATION_SECONDS: u64 = 3;

fn failed_to_open(why: &str) -> (r: DialogState)
    ensures
        r@ == DialogView::Error(seq!["Failed to open: "@ + why@]),
{
    let mut line = String::new();
    line.append("Failed to open: ");
    line.append(why);
    assert(line@ =~= "Failed to open: "@ + why@);
    let mut lines: Vec<String> = Vec::new();
    lines.push(line);
    assert(texts_view(lines@) =~= seq!["Failed to open: "@ + why@]);
    DialogState::Error(lines)
}

impl App {
    /// Takes down what became of opening a file.
    pub fn open_finished(&mut self, path: &FilePath, outcome: OpenOutcome)
        requires
            old(self).inv(),
        ensures
            final(self).inv(),
            final(self)@ == opened(old(self)@, path@, outcome@),
    {
        match outcome {
            OpenOutcome::Opened => {
                let mut note = String::new();
                note.append("Opened: ");
                let name = path.name_text();
                note.append(name.as_str());
                assert(note@ =~= "Opened: "@ + shown_name(path@));
                self.notification = Some(note);
            },
            OpenOutcome::Refused(bytes) => {
                let text = decode_lossy(&bytes);
                let why = trimmed(text.as_str());
                self.dialog = failed_to_open(why.as_str());
            },
            OpenOutcome::Failed(e) => {
                self.dialog = failed_to_open(e.as_str());
            },
        }
    }

    /// Says which file's preview is to be loaded, where it is not at hand.
    pub fn ensure_preview(&mut self) -> (r: Option<FilePath>)
        requires
            old(self).inv(),
        ensures
            final(self).inv(),
            final(self)@ == preview_checked(old(self)@),
            full_path_view(r) == wanted_preview(old(self)@),
    {
        if !self.show_preview {
            return None;
        }
        let path: FilePath = match self.selected_file() {
            Some((f, _)) => f.path.clone(),
            None => {
                self.preview = None;
                return None;
            },
        };
        let loaded: bool = match &self.preview {
            Some(p) => p.equals(&path),
            None => false,
        };
        if loaded {
            return None;
        }
        self.preview = None;
        Some(path)
    }

    /// Takes down that the preview of a file was loaded.
    pub fn preview_loaded(&mut self, path: FilePath)
        requires
            old(self).inv(),
        ensures
            final(self).inv(),
            final(self)@ == (AppView { preview: Some(path.full()), ..old(self)@ }),
    {
        self.preview = Some(path);
    }

    /// Takes a notification away that was shown for so many seconds.
    pub fn expire_notification(&mut self, shown_for: u64)
        requires
            old(self).inv(),
        ensures
            final(self).inv(),
            final(self)@ == (AppView {
                notification: if shown_for >= 3 {
                    None
                } else {
                    old(self)@.notification
                },
                ..old(self)@
            }),
    {
        if shown_for >= NOTIFICATION_SECONDS {
            self.notification = None;
        }
    }

    /// Takes down how high the terminal is.
    pub fn set_terminal_height(&mut self, height: u16)
        requires
            old(self).inv(),
        ensures
            final(self).inv(),
            final(self)@ == (AppView { terminal_height: height, ..old(self)@ }),
    {
        self.terminal_height = height;
    }

    /// Takes down which rows are highlighted once the lists were drawn.
    pub fn lists_drawn(&mut self, left: Option<usize>, right: Option<usize>)
        requires
            old(self).inv(),
        ensures
            final(self).inv(),
            final(self)@ == (AppView { left, right, ..old(self)@ }),
    {
        self.left = left;
        self.right = right;
    }
}

} // verus!
