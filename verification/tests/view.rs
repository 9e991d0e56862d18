use dupfinder::app::{App, DeleteErrorButton, DialogButton};
use dupfinder::keys::{Effect, KeyPress};
use dupfinder::path::FilePath;
use dupfinder::progress::{describe_result, next_update, BarKind, PutAway};
use dupfinder::prompt::{ask_about_results, ask_about_scan, choice_of, found, Choice, Found};
use dupfinder::record::FileInfo;
use dupfinder::report::dry_run_report;
use dupfinder::scanner::ScanProgress;
use dupfinder::view::{
    dates_to_show, format_meta, lacks_a_date, text_preview, DialogModel, ItemStyle, RowStyle,
    SpanStyle,
};

fn file(p: &str, size: u64) -> FileInfo {
    FileInfo { path: FilePath::from_text(p), size, created: None, modified: None }
}

fn app() -> App {
    let groups = vec![
        vec![file("/r/d/rather_long_name_here.txt", 2048), file("/r/b", 2048), file("/x/c", 2048)],
        vec![file("/r/d/e", 1), file("/r/d/f", 1)],
    ];
    App::new(groups, FilePath::from_text("/r"), false)
}

fn press(a: &mut App, keys: &str) {
    for c in keys.chars() {
        a.handle_key(KeyPress::Char(c));
    }
}

#[test]
fn rows_of_the_tree() {
    let mut a = app();
    assert!(a.row_sizes_fit());
    let texts = |a: &App, w: u16| -> Vec<String> { a.left_rows(w).into_iter().map(|r| r.text).collect() };
    assert_eq!(
        texts(&a, 80),
        vec![
            "   b [2.0 KB]",
            " ▼ d [3, 2.0 KB]",
            "     e [1.0 B]",
            "     f [1.0 B]",
            "     rather_long_name_here.txt [2.0 KB]",
        ]
    );
    assert_eq!(texts(&a, 27)[4], "     rathe…e.txt [2.0 KB]");
    press(&mut a, " ");
    let rows = a.left_rows(80);
    assert_eq!((rows[0].text.as_str(), rows[0].style), ("*  b [2.0 KB]", RowStyle::Marked));
    assert_eq!(rows[1].style, RowStyle::Directory);
    assert_eq!(rows[2].style, RowStyle::Plain);
    press(&mut a, "c");
    assert_eq!(texts(&a, 80)[1], " ▶ d [3, 2.0 KB]");
    assert_eq!(a.left_title(), " Duplicates ");
    press(&mut a, "/ab");
    assert_eq!(a.left_title(), " Duplicates [/ab] ");
}

#[test]
fn long_names_are_counted_in_bytes() {
    let groups = vec![vec![file("/r/żółćżółć", 1), file("/r/zzzzzzzz", 1)]];
    let a = App::new(groups, FilePath::from_text("/r"), false);
    // 3 columns, 8 letters and 8 more for the size make 19
    let rows = a.left_rows(22);
    assert_eq!(rows[0].text, "   zzzzzzzz [1.0 B]");
    // The other name has 16 bytes, so it is cut to what is left
    assert_eq!(rows[1].text, "   żółćżółć [1.0 B]");
    let rows = a.left_rows(19);
    assert_eq!(rows[0].text, "   zz…zzz [1.0 B]");
    assert_eq!(rows[1].text, "   żó…ółć [1.0 B]");
}

#[test]
fn rows_of_the_copies() {
    let mut a = app();
    let rows = a.right_rows();
    assert_eq!(rows.len(), 3);
    assert_eq!((rows[0].text.as_str(), rows[0].style), ("[<<] b", RowStyle::Chosen));
    assert_eq!(rows[1].text, "  d/rather_long_name_here.txt");
    assert_eq!((rows[2].text.as_str(), rows[2].style), ("  /x/c", RowStyle::Plain));
    press(&mut a, "S");
    let rows = a.right_rows();
    assert_eq!((rows[0].text.as_str(), rows[0].style), ("* [<<] b", RowStyle::Marked));
    assert_eq!((rows[2].text.as_str(), rows[2].style), ("* /x/c", RowStyle::Marked));
    a.handle_key(KeyPress::Esc);
    a.handle_key(KeyPress::Down);
    assert!(a.right_rows().is_empty());
}

#[test]
fn paths_are_shown_as_they_are_written() {
    let groups = vec![vec![file("/r//d//a", 1), file("/x//b/", 1)]];
    let mut a = App::new(groups, FilePath::from_text("/r/"), false);
    a.handle_key(KeyPress::Down);
    let rows = a.right_rows();
    assert_eq!(rows[0].text, "[<<] d//a");
    assert_eq!(rows[1].text, "  /x//b/");
    match a.handle_key(KeyPress::Char('E')) {
        Effect::WriteReport { path, text } => {
            assert_eq!(path.to_text(), "/r/dupfinder_report.csv");
            assert_eq!(text, "Group,Size,Path\n1,1,d//a\n1,1,/x//b/");
        }
        other => panic!("{other:?}"),
    }
    assert_eq!(
        dry_run_report(&a.groups, &a.root, false)[1..3].to_vec(),
        vec!["  /r//d//a".to_string(), "  /x//b/".to_string()]
    );
    press(&mut a, "/");
    press(&mut a, "x//B");
    assert_eq!(a.displayed().len(), 2);
    press(&mut a, "/");
    assert_eq!(a.displayed().len(), 2);
    press(&mut a, "c");
    assert!(a.displayed().is_empty());
}

#[test]
fn details() {
    let mut a = app();
    let d = a.build_details().unwrap();
    assert_eq!(d.selected.path.to_text(), "/r/b");
    assert_eq!(d.duplicate.unwrap().path.to_text(), "/r/d/rather_long_name_here.txt");
    a.lists_drawn(Some(0), Some(2));
    assert_eq!(a.build_details().unwrap().duplicate.unwrap().path.to_text(), "/x/c");
    a.lists_drawn(Some(0), Some(3));
    assert!(a.build_details().unwrap().duplicate.is_none());
    a.lists_drawn(Some(1), Some(0));
    assert!(a.build_details().is_none());
    assert_eq!(
        format_meta(1536, &None, &Some("2024-01-02 03:04:05".to_string())),
        "  Size: 1.5 KB  |  Created: N/A  |  Modified: 2024-01-02 03:04:05"
    );
}

#[test]
fn status_bar() {
    let mut a = app();
    let texts = |a: &App| -> String { a.status_bar().into_iter().map(|s| s.text).collect() };
    assert!(a.status_fits());
    assert_eq!(texts(&a), " 2 groups, 5 dupes  Total:6.0 KB Wasted:4.0 KB  0 sel  Sort:name");
    press(&mut a, " s");
    assert_eq!(texts(&a), " 2 groups, 5 dupes  Total:6.0 KB Wasted:4.0 KB  1 sel (2.0 KB)  Sort:size");
    press(&mut a, "S");
    assert_eq!(
        texts(&a),
        " 2 groups, 5 dupes  Total:6.0 KB Wasted:4.0 KB  5 sel (6.0 KB) ⚠ ALL COPIES SELECTED  Sort:size"
    );
    assert_eq!(a.status_bar()[5].style, SpanStyle::Warning);
    assert_eq!(a.status_bar()[4].style, SpanStyle::Selection);
    a.handle_key(KeyPress::Esc);
    press(&mut a, "E");
    assert_eq!(texts(&a), " ✓ Exported to /r/dupfinder_report.csv");
    assert!(a.hints().starts_with(" [Space]Sel [a]SelDir"));
    a.handle_key(KeyPress::Tab);
    assert!(a.hints().starts_with(" [Space]Sel [x]KeepOne [a]SelAll"));
    let ro = App::new(vec![], FilePath::from_text("/r"), true);
    assert_eq!(texts(&ro), " 0 groups, 0 dupes  Total:0.0 B Wasted:0.0 B  0 sel [RO]  Sort:name");
    let big = App::new(vec![vec![file("/r/a", u64::MAX), file("/r/b", 1)]], FilePath::from_text("/r"), true);
    assert!(!big.status_fits());
    assert!(big.row_sizes_fit());
}

#[test]
fn dialogs() {
    let mut a = app();
    assert!(matches!(a.dialog_model(), DialogModel::Closed));
    press(&mut a, " d");
    match a.dialog_model() {
        DialogModel::ConfirmDelete { title, lines, delete_label, scroll, button } => {
            assert_eq!(title, " Move to trash? ");
            assert_eq!(lines, vec!["  b"]);
            assert_eq!(delete_label, " [ Delete 1 permanently ] ");
            assert_eq!((scroll, button), (Some(0), DialogButton::Cancel));
        }
        other => panic!("{other:?}"),
    }
    a.handle_key(KeyPress::Esc);
    press(&mut a, "S");
    match a.dialog_model() {
        DialogModel::ConfirmDelete { title, lines, .. } => {
            assert_eq!(title, " ⚠ Move to trash? (ALL copies selected!) ");
            assert_eq!(lines.len(), 5);
            assert_eq!(lines[4], "  /x/c");
        }
        other => panic!("{other:?}"),
    }
    a.handle_key(KeyPress::Left);
    a.handle_key(KeyPress::Enter);
    a.delete_step_done();
    match a.dialog_model() {
        DialogModel::Deleting { title, rows, label, current, total, .. } => {
            assert_eq!(title, " Deleting... (ESC to cancel) ");
            assert_eq!((rows[0].text.as_str(), rows[0].style), ("✓ b", ItemStyle::Done));
            assert_eq!((rows[1].text.as_str(), rows[1].style), ("► d/e", ItemStyle::Pending));
            assert_eq!(rows[2].text, "○ d/f");
            assert_eq!((label.as_str(), current, total), ("1/5", 1, 5));
        }
        other => panic!("{other:?}"),
    }
    a.delete_step_failed("busy".to_string());
    match a.dialog_model() {
        DialogModel::DeleteError { lines, choice } => {
            assert_eq!(lines, vec!["", "  File: d/e", "  Error: busy", ""]);
            assert_eq!(choice, DeleteErrorButton::Retry);
        }
        other => panic!("{other:?}"),
    }
    a.handle_key(KeyPress::Tab);
    a.handle_key(KeyPress::Enter);
    a.handle_key(KeyPress::Esc);
    match a.dialog_model() {
        DialogModel::Deleting { title, rows, .. } => {
            assert_eq!(title, " Delete complete ");
            assert_eq!((rows[1].text.as_str(), rows[1].style), ("✗ d/e", ItemStyle::Failed));
            assert_eq!((rows[2].text.as_str(), rows[2].style), ("– d/f", ItemStyle::Skipped));
        }
        other => panic!("{other:?}"),
    }
    a.finish_delete();
    press(&mut a, "e q");
    match a.dialog_model() {
        DialogModel::ConfirmQuit { lines } => {
            assert_eq!(lines[3], "  Quit anyway? [y]es / [any key] cancel");
        }
        DialogModel::Closed => {}
        other => panic!("{other:?}"),
    }
}

#[test]
fn questions() {
    assert_eq!(
        ask_about_results(2, 5),
        "Found cached results (2 groups, 5 files). [U]se cache / [r]escan / [q]uit: "
    );
    assert_eq!(ask_about_scan(true, "x"), "Found completed scan (x). [U]se / [r]escan / [q]uit: ");
    assert_eq!(
        ask_about_scan(false, "x"),
        "Found incomplete scan (x). [R]esume / [f]resh / [q]uit: "
    );
    assert_eq!(found(true, Some(false)), Found::Results);
    assert_eq!(found(false, Some(true)), Found::DoneScan);
    assert_eq!(found(false, Some(false)), Found::OpenScan);
    assert_eq!(found(false, None), Found::Nothing);
    assert_eq!(choice_of(Found::Results, "q"), Choice::Quit);
    assert_eq!(choice_of(Found::OpenScan, "f"), Choice::Fresh);
    assert_eq!(choice_of(Found::OpenScan, "rescan"), Choice::Use);
}

#[test]
fn progress_bars() {
    let mut p = ScanProgress::new();
    p.dirs_total = 4;
    let u = next_update(BarKind::Missing, &p).unwrap();
    assert_eq!((u.kind, u.before), (BarKind::Spinner, PutAway::Stays));
    assert_eq!(u.message, "Collecting directories... 4 found");
    p.dirs_done = 1;
    p.files_found = 9;
    let u = next_update(BarKind::Spinner, &p).unwrap();
    assert_eq!((u.kind, u.before, u.length, u.position), (BarKind::Walking, PutAway::Cleared, 4, 1));
    assert_eq!((u.prefix.as_str(), u.message.as_str()), ("Walking", "(9 files)"));
    assert_eq!(next_update(BarKind::Walking, &p).unwrap().before, PutAway::Stays);
    p.stage = 1;
    p.to_hash = 6;
    p.hashed = 2;
    let u = next_update(BarKind::Walking, &p).unwrap();
    assert_eq!((u.kind, u.before, u.length, u.position), (BarKind::Heads, PutAway::Ticked, 6, 2));
    assert_eq!((u.prefix.as_str(), u.message.as_str()), ("Head hash", "(6 candidates)"));
    p.stage = 2;
    assert_eq!(next_update(BarKind::Heads, &p).unwrap().prefix, "Tail hash");
    p.stage = 3;
    p.groups_found = 3;
    p.dupes_found = 8;
    let u = next_update(BarKind::Tails, &p).unwrap();
    assert_eq!((u.prefix.as_str(), u.message.as_str()), ("Verifying", "(3 groups, 8 dupes)"));
    p.stage = 4;
    assert!(next_update(BarKind::Verifying, &p).is_none());
    assert_eq!(describe_result(7, 2, 5), "Scanned 7 files. Found 2 groups (5 duplicate files).");
}

#[test]
fn dates_are_looked_up_where_they_are_missing() {
    let mut f = file("/r/a", 1);
    f.created = None;
    f.modified = Some(7);
    assert!(lacks_a_date(&f));
    assert_eq!(dates_to_show(&f, Some(1), Some(2)), (Some(1), Some(7)));
    f.created = Some(5);
    assert!(!lacks_a_date(&f));
    assert_eq!(dates_to_show(&f, None, None), (Some(5), Some(7)));
}

#[test]
fn previews_are_of_texts() {
    assert_eq!(text_preview(&b"plain".to_vec()), Some("plain".to_string()));
    assert_eq!(text_preview(&vec![]), Some(String::new()));
    assert_eq!(text_preview(&vec![b'a', 0xff]), Some("a\u{fffd}".to_string()));
    assert_eq!(text_preview(&vec![b'a', 0, b'b']), None);
}
