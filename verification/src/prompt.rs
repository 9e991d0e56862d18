//! What is asked before a scan, and what an answer means.
use vstd::prelude::*;

use crate::text::{
    ascii_lowercase, decimal, is_ascii_text, lowercase_of, push_decimal, text_equals, to_lowercase,
    trim, trimmed,
};

verus! {

/// What was found from an earlier run.
#[derive(Debug, Clone, Copy, PartialEq, Eq, Structural)]
pub enum Found {
    /// Results.
    Results,
    /// A scan that came to its end.
    DoneScan,
    /// A scan that was interrupted.
    OpenScan,
    /// Nothing.
    Nothing,
}

/// What is done with it.
#[derive(Debug, Clone, Copy, PartialEq, Eq, Structural)]
pub enum Choice {
    /// Use it: show the results, or go on with the scan.
    Use,
    /// Scan from the beginning.
    Fresh,
    /// Leave the program.
    Quit,
}

/// What was found: results count before a scan.
pub fn found(has_results: bool, scan_is_done: Option<bool>) -> (r: Found)
    ensures
        r == if has_results {
            Found::Results
        } else {
            match scan_is_done {
                Some(true) => Found::DoneScan,
                Some(false) => Found::OpenScan,
                None => Found::Nothing,
            }
        },
{
    if has_results {
        Found::Results
    } else {
        match scan_is_done {
            Some(done) => if done {
                Found::DoneScan
            } else {
                Found::OpenScan
            },
            None => Found::Nothing,
        }
    }
}

/// What an answer in lower case without blanks around it means. Where nothing was found, nothing
/// is asked, and a scan is made from the beginning.
pub open spec fn choice_for(found: Found, answer: Seq<char>) -> Choice {
    match found {
        Found::Results => if answer == "r"@ || answer == "rescan"@ {
            Choice::Fresh
        } else if answer == "q"@ || answer == "n"@ {
            Choice::Quit
        } else {
            Choice::Use
        },
        Found::DoneScan => if answer == "r"@ || answer == "rescan"@ {
            Choice::Fresh
        } else if answer == "q"@ {
            Choice::Quit
        } else {
            Choice::Use
        },
        Found::OpenScan => if answer == "f"@ || answer == "fresh"@ {
            Choice::Fresh
        } else if answer == "q"@ {
            Choice::Quit
        } else {
            Choice::Use
        },
        Found::Nothing => Choice::Fresh,
    }
}

/// What an answer in lower case without blanks around it means.
pub fn choice_of(found: Found, answer: &str) -> (r: Choice)
    ensures
        r == choice_for(found, answer@),
{
    match found {
        Found::Results => if text_equals(answer, "r") || text_equals(answer, "rescan") {
            Choice::Fresh
        } else if text_equals(answer, "q") || text_equals(answer, "n") {
            Choice::Quit
        } else {
            Choice::Use
        },
        Found::DoneScan => if text_equals(answer, "r") || text_equals(answer, "rescan") {
            Choice::Fresh
        } else if text_equals(answer, "q") {
            Choice::Quit
        } else {
            Choice::Use
        },
        Found::OpenScan => if text_equals(answer, "f") || text_equals(answer, "fresh") {
            Choice::Fresh
        } else if text_equals(answer, "q") {
            Choice::Quit
        } else {
            Choice::Use
        },
        Found::Nothing => Choice::Fresh,
    }
}

/// What an answer means as it was typed.
pub fn read_choice(found: Found, typed: &str) -> (r: Choice)
    ensures
        r == choice_for(found, lowercase_of(trim(typed@))),
        is_ascii_text(trim(typed@)) ==> r == choice_for(found, ascii_lowercase(trim(typed@))),
{
    let bare = trimmed(typed);
    let lower = to_lowercase(bare.as_str());
    choice_of(found, lower.as_str())
}

/// The question on results: how many groups and files there are.
pub open spec fn results_question(groups: nat, files: nat) -> Seq<char> {
    "Found cached results ("@ + decimal(groups) + " groups, "@ + decimal(files)
        + " files). [U]se cache / [r]escan / [q]uit: "@
}

/// The question on results.
pub fn ask_about_results(groups: usize, files: usize) -> (r: String)
    ensures
        r@ == results_question(groups as nat, files as nat),
{
    let mut r = String::new();
    r.append("Found cached results (");
    push_decimal(&mut r, groups as u64);
    r.append(" groups, ");
    push_decimal(&mut r, files as u64);
    r.append(" files). [U]se cache / [r]escan / [q]uit: ");
    assert(r@ =~= results_question(groups as nat, files as nat));
    r
}

/// The question on a scan.
pub open spec fn scan_question(done: bool, summary: Seq<char>) -> Seq<char> {
    if done {
        "Found completed scan ("@ + summary + "). [U]se / [r]escan / [q]uit: "@
    } else {
        "Found incomplete scan ("@ + summary + "). [R]esume / [f]resh / [q]uit: "@
    }
}

/// The question on a scan.
pub fn ask_about_scan(done: bool, summary: &str) -> (r: String)
    ensures
        r@ == scan_question(done, summary@),
{
    let mut r = String::new();
    if done {
        r.append("Found completed scan (");
        r.append(summary);
        r.append("). [U]se / [r]escan / [q]uit: ");
    } else {
        r.append("Found incomplete scan (");
        r.append(summary);
        r.append("). [R]esume / [f]resh / [q]uit: ");
    }
    assert(r@ =~= scan_question(done, summary@));
    r
}

} // verus!
