//! What the reports list.
use vstd::prelude::*;

use crate::groups::wasted_total;
use crate::path::{text_within, written_behind, PathView, Step};
use crate::record::FileView;
use crate::report::{csv_group, csv_groups, csv_report, dry_run_lines, group_lines, listed_lines};
use crate::size::size_text;
use crate::text::{decimal, lossy_text};

verus! {

// ---------------------------------------------------------------------------
// The report for other programs
// ---------------------------------------------------------------------------

/// What is shown of a path below a directory is what follows that; of any other path all is shown,
/// as it is written.
pub proof fn paths_are_shown_from_the_root(p: PathView, base: Seq<Step>)
    ensures
        base.len() <= p.steps.len() && p.steps.take(base.len() as int) == base ==> text_within(
            p,
            base,
        ) == lossy_text(written_behind(p.written, base.len() as int)),
        !(base.len() <= p.steps.len() && p.steps.take(base.len() as int) == base) ==> text_within(
            p,
            base,
        ) == lossy_text(p.written),
{
}

proof fn lemma_csv_group_prefix(i: int, files: Seq<FileView>, f: FileView, root: Seq<Step>, k: int)
    requires
        0 <= k <= files.len(),
    ensures
        csv_group(i, files.push(f), root, k) == csv_group(i, files, root, k),
    decreases k,
{
    if k > 0 {
        lemma_csv_group_prefix(i, files, f, root, k - 1);
        assert(files.push(f)[k - 1] == files[k - 1]);
    }
}

proof fn lemma_csv_prefix(
    groups: Seq<Seq<FileView>>,
    more: Seq<FileView>,
    root: Seq<Step>,
    n: int,
)
    requires
        0 <= n <= groups.len(),
    ensures
        csv_groups(groups.push(more), root, n) == csv_groups(groups, root, n),
    decreases n,
{
    if n > 0 {
        lemma_csv_prefix(groups, more, root, n - 1);
        assert(groups.push(more)[n - 1] == groups[n - 1]);
    }
}

/// The report begins with its heading. Each file more of the last group adds one line to it: the
/// number of the group, counted from one, the size of the file, and its path as seen from the root,
/// with commas between. So there is a line for every file of every group, in their order.
pub proof fn each_file_has_its_line(
    groups: Seq<Seq<FileView>>,
    files: Seq<FileView>,
    f: FileView,
    root: Seq<Step>,
)
    ensures
        csv_report(seq![], root) == "Group,Size,Path"@,
        csv_report(groups.push(seq![]), root) == csv_report(groups, root),
        csv_report(groups.push(files.push(f)), root) == csv_report(groups.push(files), root)
            + "\n"@ + decimal(groups.len() + 1) + ","@ + decimal(f.size as nat) + ","@
            + text_within(f.full_path(), root),
{
    let n = groups.len() as int;
    let none = Seq::<FileView>::empty();
    assert(csv_report(seq![], root) =~= "Group,Size,Path"@);
    lemma_csv_prefix(groups, none, root, n);
    assert(groups.push(none)[n] == none);
    assert(csv_report(groups.push(none), root) =~= csv_report(groups, root));
    lemma_csv_prefix(groups, files, root, n);
    lemma_csv_prefix(groups, files.push(f), root, n);
    assert(groups.push(files)[n] == files);
    assert(groups.push(files.push(f))[n] == files.push(f));
    lemma_csv_group_prefix(n, files, f, root, files.len() as int);
    assert(files.push(f)[files.len() as int] == f);
    assert(csv_report(groups.push(files.push(f)), root) =~= csv_report(groups.push(files), root)
        + "\n"@ + decimal(groups.len() + 1) + ","@ + decimal(f.size as nat) + ","@ + text_within(
        f.full_path(),
        root,
    ));
}

// ---------------------------------------------------------------------------
// The report for people
// ---------------------------------------------------------------------------

proof fn lemma_listed_prefix(
    files: Seq<FileView>,
    f: FileView,
    root: Seq<Step>,
    single: bool,
    k: int,
)
    requires
        0 <= k <= files.len(),
    ensures
        listed_lines(files.push(f), root, single, k) == listed_lines(files, root, single, k),
        listed_lines(files, root, single, k).len() == k,
    decreases k,
{
    if k > 0 {
        lemma_listed_prefix(files, f, root, single, k - 1);
        assert(files.push(f)[k - 1] == files[k - 1]);
    }
}

proof fn lemma_lines_prefix(
    groups: Seq<Seq<FileView>>,
    more: Seq<FileView>,
    root: Seq<Step>,
    single: bool,
    n: int,
)
    requires
        0 <= n <= groups.len(),
    ensures
        group_lines(groups.push(more), root, single, n) == group_lines(groups, root, single, n),
    decreases n,
{
    if n > 0 {
        lemma_lines_prefix(groups, more, root, single, n - 1);
        assert(groups.push(more)[n - 1] == groups[n - 1]);
    }
}

/// What a file is called in the report: its path as seen from the root where there is only one root,
/// and its whole path where there are more.
pub open spec fn called(f: FileView, root: Seq<Step>, single: bool) -> Seq<char> {
    if single {
        text_within(f.full_path(), root)
    } else {
        lossy_text(f.written)
    }
}

/// The report ends with an empty line and the totals. A group more adds its heading, with its number
/// counted from one and the size of its first file, and a line for that file; each further file adds
/// one line. So every file of every group is listed, in their order.
pub proof fn each_file_is_listed(
    groups: Seq<Seq<FileView>>,
    files: Seq<FileView>,
    f: FileView,
    root: Seq<Step>,
    single: bool,
)
    requires
        files.len() > 0,
    ensures
        dry_run_lines(seq![], root, single).len() == 2,
        ({
            let before = dry_run_lines(groups, root, single);
            let after = dry_run_lines(groups.push(seq![f]), root, single);
            let n = before.len() - 2;
            &&& n >= 0
            &&& after.len() == n + 4
            &&& after.take(n) == before.take(n)
            &&& after[n] == "Group "@ + decimal(groups.len() + 1) + " ("@ + size_text(
                f.size as nat,
            ) + "):"@
            &&& after[n + 1] == "  "@ + called(f, root, single)
        }),
        ({
            let before = dry_run_lines(groups.push(files), root, single);
            let after = dry_run_lines(groups.push(files.push(f)), root, single);
            let n = before.len() - 2;
            &&& n >= 0
            &&& after.len() == n + 3
            &&& after.take(n) == before.take(n)
            &&& after[n] == "  "@ + called(f, root, single)
        }),
        ({
            let lines = dry_run_lines(groups, root, single);
            &&& lines[lines.len() - 2].len() == 0
            &&& lines[lines.len() - 1] == decimal(groups.len()) + " groups, "@ + size_text(
                wasted_total(groups) as nat,
            ) + " wasted space"@
        }),
{
    let k = groups.len() as int;
    let none = Seq::<FileView>::empty();
    let one = seq![f];
    assert(one =~= none.push(f));
    lemma_lines_prefix(groups, one, root, single, k);
    lemma_lines_prefix(groups, files, root, single, k);
    lemma_lines_prefix(groups, files.push(f), root, single, k);
    lemma_listed_prefix(none, f, root, single, 0);
    lemma_listed_prefix(files, f, root, single, files.len() as int);
    lemma_listed_prefix(files.push(f), f, root, single, files.len() as int + 1);
    assert(groups.push(one)[k] == one);
    assert(groups.push(files)[k] == files);
    assert(groups.push(files.push(f))[k] == files.push(f));
    assert(files.push(f)[files.len() as int] == f);
    assert(files.push(f)[0] == files[0]);
    let own = listed_lines(files, root, single, files.len() as int);
    let grown = listed_lines(files.push(f), root, single, files.len() as int + 1);
    assert(grown =~= own.push("  "@ + called(f, root, single)));
    let a = dry_run_lines(groups, root, single);
    let b = dry_run_lines(groups.push(one), root, single);
    assert(listed_lines(one, root, single, 1) =~= seq!["  "@ + called(f, root, single)]) by {
        assert(listed_lines(one, root, single, 0) =~= Seq::<Seq<char>>::empty());
    }
    assert(b.take(a.len() - 2) =~= a.take(a.len() - 2));
    let c = dry_run_lines(groups.push(files), root, single);
    let d = dry_run_lines(groups.push(files.push(f)), root, single);
    assert(d.take(c.len() - 2) =~= c.take(c.len() - 2));
}

} // verus!
