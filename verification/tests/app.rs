use dupfinder::app::{App, DeleteErrorButton, DeleteStatus, DialogButton, DialogState};
use dupfinder::deletion::DeleteJob;
use dupfinder::keys::{Effect, KeyPress, MouseAction, OpenOutcome};
use dupfinder::path::FilePath;
use dupfinder::record::{DuplicateGroups, FileInfo};
use dupfinder::tree::SortMode;

fn path(s: &str) -> FilePath {
    FilePath::from_text(s)
}

fn file(p: &str, size: u64, date: i128) -> FileInfo {
    FileInfo { path: path(p), size, created: None, modified: Some(date) }
}

fn sample() -> DuplicateGroups {
    vec![
        vec![file("/r/d/b.txt", 10, 1), file("/r/d/a.txt", 10, 2), file("/r/e/c.txt", 10, 3)],
        vec![file("/r/a.bin", 500, 9), file("/r/d/z.bin", 500, 8)],
    ]
}

fn app() -> App {
    App::new(sample(), path("/r"), false)
}

fn rows(a: &App) -> Vec<String> {
    a.displayed().iter().map(|(d, n)| format!("{}{}", "-".repeat(*d), n.name)).collect()
}

fn selected(a: &App) -> Vec<String> {
    a.selected_for_delete.list().iter().map(|p| p.to_text()).collect()
}

fn press(a: &mut App, keys: &str) {
    for c in keys.chars() {
        assert!(matches!(a.handle_key(KeyPress::Char(c)), Effect::Nothing), "{c}");
    }
}

#[test]
fn begins_with_the_first_row_of_the_sorted_tree() {
    let a = app();
    assert_eq!(rows(&a), vec!["a.bin", "d", "-a.txt", "-b.txt", "-z.bin", "e", "-c.txt"]);
    assert_eq!(a.left, Some(0));
    assert_eq!(a.right, None);
    assert_eq!(a.groups[0][0].path.to_text(), "/r/a.bin");
    let empty = App::new(vec![], path("/r"), true);
    assert_eq!(empty.left, None);
    assert!(empty.read_only);
}

#[test]
fn moves_through_the_tree() {
    let mut a = app();
    press(&mut a, "jj");
    assert_eq!((a.left, a.right), (Some(2), Some(0)));
    assert_eq!(a.current().unwrap().name, "a.txt");
    press(&mut a, "k");
    assert_eq!(a.left, Some(1));
    a.handle_key(KeyPress::End);
    assert_eq!(a.left, Some(6));
    a.handle_key(KeyPress::Down);
    assert_eq!(a.left, Some(6));
    a.handle_key(KeyPress::PageUp);
    assert_eq!(a.left, Some(0)); // a page of 24 lines has 12 rows
    a.set_terminal_height(10);
    a.handle_key(KeyPress::PageDown);
    assert_eq!(a.left, Some(5)); // five rows at least
    a.handle_key(KeyPress::Home);
    assert_eq!(a.left, Some(0));
    a.handle_key(KeyPress::Up);
    assert_eq!(a.left, Some(0));
}

#[test]
fn moves_through_the_copies() {
    let mut a = app();
    press(&mut a, "jj");
    a.handle_key(KeyPress::Tab);
    assert!(a.focus_right);
    assert_eq!(a.right_items_len(), 3);
    assert_eq!(a.target_path().unwrap().to_text(), "/r/d/a.txt");
    press(&mut a, "j");
    assert_eq!(a.target_path().unwrap().to_text(), "/r/d/b.txt");
    press(&mut a, "jj");
    assert_eq!(a.right, Some(2));
    assert_eq!(a.target_path().unwrap().to_text(), "/r/e/c.txt");
    a.handle_key(KeyPress::Home);
    assert_eq!(a.right, Some(0));
    a.handle_key(KeyPress::End);
    assert_eq!(a.right, Some(2));
    a.handle_key(KeyPress::PageUp);
    assert_eq!(a.right, Some(0));
    // Below a directory there is nothing on the right
    a.lists_drawn(Some(1), Some(0));
    assert_eq!(a.right_items_len(), 0);
    a.handle_key(KeyPress::Down);
    assert_eq!(a.right, Some(0));
    assert!(a.target_path().is_none());
}

#[test]
fn expands_and_collapses() {
    let mut a = app();
    press(&mut a, "j");
    a.handle_key(KeyPress::Enter);
    assert_eq!(rows(&a), vec!["a.bin", "d", "e", "-c.txt"]);
    press(&mut a, " "); // a directory is expanded again
    assert_eq!(rows(&a).len(), 7);
    press(&mut a, "c");
    assert_eq!(rows(&a), vec!["a.bin", "d", "e"]);
    assert_eq!((a.left, a.right), (Some(0), Some(0)));
    press(&mut a, "e");
    assert_eq!(rows(&a).len(), 7);
}

#[test]
fn selects_files() {
    let mut a = app();
    press(&mut a, "jj ");
    assert_eq!(selected(&a), vec!["/r/d/a.txt"]);
    press(&mut a, " ");
    assert!(selected(&a).is_empty());
    press(&mut a, "a"); // all files in the directory
    assert_eq!(selected(&a), vec!["/r/d/a.txt", "/r/d/b.txt", "/r/d/z.bin"]);
    press(&mut a, "j i"); // b.txt is deselected, then all in the directory flip
    assert_eq!(selected(&a), vec!["/r/d/b.txt"]);
    press(&mut a, "i");
    assert_eq!(selected(&a), vec!["/r/d/a.txt", "/r/d/z.bin"]);
    press(&mut a, "u");
    assert!(selected(&a).is_empty());
    // On a directory its own files are meant
    press(&mut a, "kk");
    assert_eq!(a.current().unwrap().name, "d");
    press(&mut a, "a");
    assert_eq!(selected(&a).len(), 3);
}

#[test]
fn selects_copies() {
    let mut a = app();
    press(&mut a, "jj");
    a.handle_key(KeyPress::Tab);
    press(&mut a, "a"); // all copies, the file itself with them
    assert_eq!(selected(&a), vec!["/r/d/a.txt", "/r/d/b.txt", "/r/e/c.txt"]);
    assert!(a.has_full_group_selected());
    press(&mut a, " ");
    assert_eq!(selected(&a), vec!["/r/d/b.txt", "/r/e/c.txt"]);
    press(&mut a, "i");
    assert_eq!(selected(&a), vec!["/r/d/a.txt"]);
    press(&mut a, "u");
    press(&mut a, "j "); // the second row is b.txt
    assert_eq!(selected(&a), vec!["/r/d/b.txt"]);
    press(&mut a, "x"); // b.txt is kept
    assert_eq!(selected(&a), vec!["/r/d/a.txt", "/r/e/c.txt"]);
    a.handle_key(KeyPress::Tab);
    press(&mut a, "x"); // in the tree the file itself is kept
    assert_eq!(selected(&a), vec!["/r/d/b.txt", "/r/e/c.txt"]);
    assert!(!a.has_full_group_selected());
    press(&mut a, " ");
    assert!(a.has_full_group_selected());
}

#[test]
fn sorts_in_four_ways() {
    let mut a = app();
    press(&mut a, "s");
    assert_eq!(a.sort_mode, SortMode::Size);
    assert_eq!(a.groups[0][0].size, 500);
    assert_eq!(rows(&a), vec!["a.bin", "d", "-z.bin", "-a.txt", "-b.txt", "e", "-c.txt"]);
    press(&mut a, "s");
    assert_eq!(a.sort_mode, SortMode::Date);
    assert_eq!(rows(&a), vec!["a.bin", "d", "-z.bin", "-a.txt", "-b.txt", "e", "-c.txt"]);
    press(&mut a, "s");
    assert_eq!(a.sort_mode, SortMode::Count);
    assert_eq!(a.groups[0].len(), 3);
    assert_eq!(rows(&a)[0], "d");
    press(&mut a, "s");
    assert_eq!(a.sort_mode, SortMode::Name);
    assert_eq!(rows(&a), rows(&app()));
}

#[test]
fn filters_by_path() {
    let mut a = app();
    press(&mut a, "/");
    assert!(a.filtering);
    press(&mut a, "BIN");
    assert_eq!(rows(&a), vec!["a.bin", "d", "-z.bin"]);
    a.handle_key(KeyPress::Enter);
    assert!(!a.filtering);
    assert_eq!(a.filter, "BIN");
    press(&mut a, "/q"); // while typing, letters are letters
    assert!(rows(&a).is_empty());
    assert_eq!((a.left, a.right), (None, None));
    a.handle_key(KeyPress::Backspace);
    assert_eq!(a.left, Some(0));
    assert_eq!(rows(&a).len(), 3);
    a.handle_key(KeyPress::Tab);
    assert!(!a.focus_right);
    a.handle_key(KeyPress::Esc);
    assert_eq!((a.filter.as_str(), a.filtering), ("", false));
    assert_eq!(rows(&a).len(), 7);
    // Groups keep their numbers behind the filter
    press(&mut a, "/c.txt");
    assert_eq!(rows(&a), vec!["d", "-a.txt", "-b.txt", "e", "-c.txt"]);
    a.lists_drawn(Some(1), Some(0));
    let (f, g) = a.selected_file().unwrap();
    assert_eq!((f.path.to_text().as_str(), g), ("/r/d/a.txt", 1));
}

#[test]
fn goes_to_a_copy() {
    let mut a = app();
    press(&mut a, "jj");
    press(&mut a, "g"); // only from the copies
    assert_eq!(a.left, Some(2));
    a.handle_key(KeyPress::Tab);
    a.handle_key(KeyPress::End);
    press(&mut a, "g");
    assert!(!a.focus_right);
    assert_eq!(a.current().unwrap().path.to_text(), "/r/e/c.txt");
    // A collapsed directory is expanded
    a.lists_drawn(Some(5), Some(0));
    a.handle_key(KeyPress::Enter);
    assert_eq!(rows(&a).len(), 6);
    a.lists_drawn(Some(2), Some(2));
    a.handle_key(KeyPress::Tab);
    press(&mut a, "g");
    assert_eq!(rows(&a).len(), 7);
    assert_eq!(a.current().unwrap().path.to_text(), "/r/e/c.txt");
    assert_eq!((a.left, a.right), (Some(6), Some(0)));
}

#[test]
fn asks_before_deleting() {
    let mut a = app();
    press(&mut a, "d");
    assert!(matches!(a.dialog, DialogState::Closed)); // nothing is selected
    press(&mut a, " jj d");
    let at = |a: &App| match &a.dialog {
        DialogState::ConfirmDelete { scroll, button } => (*scroll, *button),
        other => panic!("{other:?}"),
    };
    assert_eq!(at(&a), (Some(0), DialogButton::Cancel));
    a.handle_key(KeyPress::Right);
    assert_eq!(at(&a).1, DialogButton::Trash);
    a.handle_key(KeyPress::Tab);
    assert_eq!(at(&a).1, DialogButton::DeletePermanently);
    a.handle_key(KeyPress::Right);
    assert_eq!(at(&a).1, DialogButton::Cancel);
    a.handle_key(KeyPress::Left);
    assert_eq!(at(&a).1, DialogButton::DeletePermanently);
    a.handle_key(KeyPress::Left);
    a.handle_key(KeyPress::Left);
    assert_eq!(at(&a).1, DialogButton::Cancel);
    press(&mut a, "jj");
    assert_eq!(at(&a).0, Some(1));
    a.handle_key(KeyPress::Up);
    press(&mut a, "k");
    assert_eq!(at(&a).0, Some(0));
    a.handle_key(KeyPress::Esc);
    assert!(matches!(a.dialog, DialogState::Closed));
    assert_eq!(selected(&a).len(), 2);
    press(&mut a, "d");
    a.handle_key(KeyPress::Enter); // on the button that cancels
    assert!(matches!(a.dialog, DialogState::Closed));
}

#[test]
fn deletes_for_good() {
    let mut a = app();
    press(&mut a, "jj jj d"); // a.txt and z.bin
    assert_eq!(selected(&a), vec!["/r/d/a.txt", "/r/d/z.bin"]);
    a.handle_key(KeyPress::Left);
    assert!(matches!(a.handle_key(KeyPress::Enter), Effect::Nothing));
    match a.process_delete_step() {
        Some(DeleteJob::Remove { path }) => assert_eq!(path.to_text(), "/r/d/a.txt"),
        other => panic!("{other:?}"),
    }
    a.delete_step_done();
    assert!(!a.finish_delete_if_over());
    match &a.dialog {
        DialogState::Deleting { job, scroll } => {
            assert_eq!((job.current, *scroll), (1, Some(1)));
            assert!(matches!(job.items[0].1, DeleteStatus::Done));
            assert!(matches!(job.items[1].1, DeleteStatus::Pending));
        }
        other => panic!("{other:?}"),
    }
    assert!(a.process_delete_step().is_some());
    a.delete_step_done();
    assert!(a.process_delete_step().is_none());
    assert!(a.finish_delete_if_over());
    assert_eq!(a.notification.as_deref(), Some("Deleted 2 file(s)"));
    assert!(selected(&a).is_empty());
    assert!(matches!(a.dialog, DialogState::Closed));
    // One group has two files left, the other is no group any more
    assert_eq!(a.groups.len(), 1);
    assert_eq!(rows(&a), vec!["d", "-b.txt", "e", "-c.txt"]);
    assert!(!a.finish_delete_if_over());
}

#[test]
fn moves_to_the_trash() {
    let mut a = App::new(
        vec![vec![file("/r/d/a", 1, 1), file("/elsewhere/b", 1, 1)]],
        path("/r"),
        false,
    );
    press(&mut a, "S");
    assert_eq!(selected(&a), vec!["/elsewhere/b", "/r/d/a"]);
    a.handle_key(KeyPress::Right);
    match a.handle_key(KeyPress::Enter) {
        Effect::PrepareTrash { dir } => assert_eq!(dir.to_text(), "/r/.dupfinder_trash"),
        other => panic!("{other:?}"),
    }
    a.execute_delete(false, None);
    // What does not lie below the root cannot be moved
    assert!(a.process_delete_step().is_none());
    match &a.dialog {
        DialogState::DeleteError { error, choice, .. } => {
            assert_eq!((error.as_str(), *choice), ("not under root", DeleteErrorButton::Retry));
        }
        other => panic!("{other:?}"),
    }
    a.handle_key(KeyPress::Tab);
    a.handle_key(KeyPress::Enter); // skipped
    match a.process_delete_step() {
        Some(DeleteJob::Move { path, dest, dest_dir }) => {
            assert_eq!(path.to_text(), "/r/d/a");
            assert_eq!(dest.to_text(), "/r/.dupfinder_trash/d/a");
            assert_eq!(dest_dir.unwrap().to_text(), "/r/.dupfinder_trash/d");
        }
        other => panic!("{other:?}"),
    }
    match &a.dialog {
        DialogState::Deleting { job, scroll } => {
            assert!(matches!(&job.items[0].1, DeleteStatus::Failed(e) if e == "Skipped"));
            assert_eq!((job.current, *scroll), (1, Some(1)));
        }
        other => panic!("{other:?}"),
    }
    a.delete_step_done();
    assert!(a.finish_delete_if_over());
    assert_eq!(a.notification.as_deref(), Some("Deleted 1 file(s)"));
    assert!(a.groups.is_empty());
}

#[test]
fn says_when_there_is_no_trash() {
    let mut a = app();
    press(&mut a, " d");
    a.execute_delete(false, Some("disk full".to_string()));
    match &a.dialog {
        DialogState::Error(lines) => assert_eq!(lines[0], "Cannot create trash dir: disk full"),
        other => panic!("{other:?}"),
    }
    a.handle_key(KeyPress::Other);
    assert!(matches!(a.dialog, DialogState::Closed));
}

fn failing() -> App {
    let mut a = app();
    press(&mut a, "S");
    a.handle_key(KeyPress::Left);
    a.handle_key(KeyPress::Enter);
    a.process_delete_step();
    a.delete_step_done();
    a.process_delete_step();
    a.delete_step_failed("busy".to_string());
    a
}

#[test]
fn failed_deletions_can_be_tried_again() {
    let mut a = failing();
    a.handle_key(KeyPress::Enter);
    match &a.dialog {
        DialogState::Deleting { job, scroll } => {
            assert_eq!((job.current, *scroll, job.permanent), (1, Some(1), true));
        }
        other => panic!("{other:?}"),
    }
}

#[test]
fn failed_deletions_can_be_given_up() {
    for esc in [false, true] {
        let mut a = failing();
        if esc {
            a.handle_key(KeyPress::Esc);
        } else {
            a.handle_key(KeyPress::Left);
            a.handle_key(KeyPress::Right);
            a.handle_key(KeyPress::Enter);
        }
        match &a.dialog {
            DialogState::Deleting { job, scroll } => {
                assert_eq!((job.current, *scroll), (5, None));
                assert!(matches!(job.items[0].1, DeleteStatus::Done));
                assert!(job.items[1..].iter().all(|i| matches!(i.1, DeleteStatus::Skipped)));
            }
            other => panic!("{other:?}"),
        }
        assert!(a.finish_delete_if_over());
        assert_eq!(a.notification.as_deref(), Some("Deleted 1 file(s)"));
    }
}

#[test]
fn deletions_can_be_cancelled() {
    let mut a = app();
    press(&mut a, "S");
    a.handle_key(KeyPress::Left);
    a.handle_key(KeyPress::Enter);
    a.handle_key(KeyPress::Enter); // does nothing now
    a.handle_key(KeyPress::Esc);
    assert!(a.finish_delete_if_over());
    assert_eq!(a.notification.as_deref(), Some("Deleted 0 file(s)"));
    assert_eq!(a.groups.len(), 2);
}

#[test]
fn read_only_deletes_nothing() {
    let mut a = App::new(sample(), path("/r"), true);
    press(&mut a, " dS");
    assert!(matches!(a.dialog, DialogState::Closed));
    assert_eq!(selected(&a), vec!["/r/a.bin"]);
}

#[test]
fn quits_at_once_or_asks() {
    let mut a = app();
    assert!(matches!(a.handle_key(KeyPress::Esc), Effect::Quit));
    assert!(matches!(a.handle_key(KeyPress::Char('q')), Effect::Quit));
    press(&mut a, " q");
    assert!(matches!(a.dialog, DialogState::ConfirmQuit));
    press(&mut a, "n");
    assert!(matches!(a.dialog, DialogState::Closed));
    press(&mut a, "q");
    assert!(matches!(a.handle_key(KeyPress::Char('y')), Effect::Quit));
    assert!(matches!(a.handle_key(KeyPress::Enter), Effect::Quit));
}

#[test]
fn opens_what_is_highlighted() {
    let mut a = app();
    press(&mut a, "j");
    match a.handle_key(KeyPress::Char('o')) {
        Effect::Open { path } => assert_eq!(path.to_text(), "/r/d"),
        other => panic!("{other:?}"),
    }
    a.open_finished(&path("/r/d"), OpenOutcome::Opened);
    assert_eq!(a.notification.as_deref(), Some("Opened: d"));
    a.expire_notification(2);
    assert!(a.notification.is_some());
    a.expire_notification(3);
    assert!(a.notification.is_none());
    a.open_finished(&path("/r/d"), OpenOutcome::Refused(b" no app\xff\n".to_vec()));
    match &a.dialog {
        DialogState::Error(lines) => assert_eq!(lines, &vec!["Failed to open: no app\u{fffd}"]),
        other => panic!("{other:?}"),
    }
    a.handle_key(KeyPress::Enter);
    a.open_finished(&path("/r/d"), OpenOutcome::Failed("not found".to_string()));
    match &a.dialog {
        DialogState::Error(lines) => assert_eq!(lines, &vec!["Failed to open: not found"]),
        other => panic!("{other:?}"),
    }
}

#[test]
fn exports_a_report() {
    let mut a = app();
    match a.handle_key(KeyPress::Char('E')) {
        Effect::WriteReport { path, text } => {
            assert_eq!(path.to_text(), "/r/dupfinder_report.csv");
            assert!(text.starts_with("Group,Size,Path\n1,500,a.bin\n1,500,d/z.bin\n2,10,d/b.txt"));
        }
        other => panic!("{other:?}"),
    }
    assert_eq!(a.notification.as_deref(), Some("Exported to /r/dupfinder_report.csv"));
}

#[test]
fn mouse() {
    let mut a = app();
    a.handle_mouse(MouseAction::ScrollDown, 100);
    assert_eq!(a.left, Some(1));
    a.handle_mouse(MouseAction::ScrollUp, 100);
    assert_eq!(a.left, Some(0));
    a.handle_mouse(MouseAction::Press { column: 40 }, 100);
    assert!(a.focus_right);
    a.handle_mouse(MouseAction::Press { column: 39 }, 100);
    assert!(!a.focus_right);
    a.handle_mouse(MouseAction::Other, 100);
    assert!(!a.focus_right);
}

#[test]
fn previews_are_asked_for_once() {
    let mut a = app();
    assert_eq!(a.ensure_preview().unwrap().to_text(), "/r/a.bin");
    a.preview_loaded(path("/r/a.bin"));
    assert!(a.ensure_preview().is_none());
    press(&mut a, "j"); // a directory has no preview
    assert!(a.preview.is_none());
    assert!(a.ensure_preview().is_none());
    press(&mut a, "j");
    a.preview_loaded(path("/r/a.bin")); // of another file
    assert_eq!(a.ensure_preview().unwrap().to_text(), "/r/d/a.txt");
    assert!(a.preview.is_none());
    press(&mut a, "p");
    assert!(!a.show_preview);
    assert!(a.ensure_preview().is_none());
}
