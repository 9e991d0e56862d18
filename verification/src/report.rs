//! Reports of the duplicates that were found.
use vstd::prelude::*;

use crate::groups::{lemma_wasted_grows, none_empty, wasted_is_held, wasted_total};
use crate::path::{shown_text, text_within, FilePath, Step};
use crate::record::{group_view, groups_view, DuplicateGroups, FileView};
use crate::size::{format_size_simple, size_text};
use crate::text::{decimal, push_decimal};

verus! {

// ---------------------------------------------------------------------------
// The report for other programs
// ---------------------------------------------------------------------------

/// The line for a file of group `i`: the number of the group, the size, and the path as seen from
/// the root.
pub open spec fn csv_line(i: int, f: FileView, root: Seq<Step>) -> Seq<char> {
    decimal((i + 1) as nat) + ","@ + decimal(f.size as nat) + ","@ + text_within(
        f.full_path(),
        root,
    )
}

/// The lines for the first `k` files of group `i`.
pub open spec fn csv_group(i: int, files: Seq<FileView>, root: Seq<Step>, k: int) -> Seq<char>
    decreases k,
{
    if 0 < k <= files.len() {
        csv_group(i, files, root, k - 1) + "\n"@ + csv_line(i, files[k - 1], root)
    } else {
        seq![]
    }
}

/// The lines for the first `n` groups.
pub open spec fn csv_groups(groups: Seq<Seq<FileView>>, root: Seq<Step>, n: int) -> Seq<char>
    decreases n,
{
    if 0 < n <= groups.len() {
        csv_groups(groups, root, n - 1) + csv_group(
            n - 1,
            groups[n - 1],
            root,
            groups[n - 1].len() as int,
        )
    } else {
        seq![]
    }
}

/// The report: a heading, and a line for each file.
pub open spec fn csv_report(groups: Seq<Seq<FileView>>, root: Seq<Step>) -> Seq<char> {
    "Group,Size,Path"@ + csv_groups(groups, root, groups.len() as int)
}

/// Writes the report.
pub fn report_csv(groups: &DuplicateGroups, root: &FilePath) -> (r: String)
    ensures
        r@ == csv_report(groups_view(groups@), root@),
{
    let ghost gs = groups_view(groups@);
    let mut out = String::new();
    out.append("Group,Size,Path");
    let ghost head = out@;
    let mut i: usize = 0;
    assert(out@ =~= head + csv_groups(gs, root@, 0));
    while i < groups.len()
        invariant
            i <= groups.len(),
            gs == groups_view(groups@),
            out@ == head + csv_groups(gs, root@, i as int),
        decreases groups@.len() - i,
    {
        let group = &groups[i];
        let ghost files = group_view(group@);
        let ghost before = out@;
        assert(gs[i as int] == files);
        let mut k: usize = 0;
        assert(out@ =~= before + csv_group(i as int, files, root@, 0));
        while k < group.len()
            invariant
                i < groups.len(),
                k <= group@.len(),
                files == group_view(group@),
                out@ == before + csv_group(i as int, files, root@, k as int),
            decreases group@.len() - k,
        {
            assert(files[k as int] == group@[k as int]@);
            out.append("\n");
            push_decimal(&mut out, (i + 1) as u64);
            out.append(",");
            push_decimal(&mut out, group[k].size);
            out.append(",");
            let rel = group[k].path.within(root);
            let text = rel.to_text();
            out.append(text.as_str());
            k += 1;
            assert(out@ =~= before + csv_group(i as int, files, root@, k as int));
        }
        i += 1;
        assert(out@ =~= head + csv_groups(gs, root@, i as int));
    }
    out
}

// ---------------------------------------------------------------------------
// The report for people
// ---------------------------------------------------------------------------

/// What a file is called in the report: its path, as seen from the root where there is only one.
pub open spec fn listed_path(f: FileView, root: Seq<Step>, single: bool) -> Seq<char> {
    if single {
        text_within(f.full_path(), root)
    } else {
        shown_text(f.written)
    }
}

/// The heading of group `i`: its number, and the size of its first file.
pub open spec fn group_heading(i: int, files: Seq<FileView>) -> Seq<char> {
    "Group "@ + decimal((i + 1) as nat) + " ("@ + size_text(files[0].size as nat) + "):"@
}

/// The lines for the first `k` files of a group.
pub open spec fn listed_lines(files: Seq<FileView>, root: Seq<Step>, single: bool, k: int) -> Seq<
    Seq<char>,
>
    decreases k,
{
    if 0 < k <= files.len() {
        listed_lines(files, root, single, k - 1).push(
            "  "@ + listed_path(files[k - 1], root, single),
        )
    } else {
        seq![]
    }
}

/// The lines for the first `n` groups.
pub open spec fn group_lines(groups: Seq<Seq<FileView>>, root: Seq<Step>, single: bool, n: int) -> Seq<
    Seq<char>,
>
    decreases n,
{
    if 0 < n <= groups.len() {
        group_lines(groups, root, single, n - 1).push(group_heading(n - 1, groups[n - 1]))
            + listed_lines(groups[n - 1], root, single, groups[n - 1].len() as int)
    } else {
        seq![]
    }
}

/// The last line: the number of groups, and the bytes that could be saved.
pub open spec fn totals_line(groups: Seq<Seq<FileView>>) -> Seq<char> {
    decimal(groups.len()) + " groups, "@ + size_text(wasted_total(groups) as nat)
        + " wasted space"@
}

/// The report: each group with its files, an empty line, and the totals.
pub open spec fn dry_run_lines(groups: Seq<Seq<FileView>>, root: Seq<Step>, single: bool) -> Seq<
    Seq<char>,
> {
    group_lines(groups, root, single, groups.len() as int).push(seq![]).push(totals_line(groups))
}

/// What lines stand for.
pub open spec fn lines_view(lines: Seq<String>) -> Seq<Seq<char>> {
    lines.map_values(|l: String| l@)
}

/// Writes the report, line by line.
pub fn dry_run_report(groups: &DuplicateGroups, root: &FilePath, single: bool) -> (r: Vec<String>)
    requires
        none_empty(groups_view(groups@)),
        wasted_total(groups_view(groups@)) <= u64::MAX,
    ensures
        lines_view(r@) == dry_run_lines(groups_view(groups@), root@, single),
{
    let ghost gs = groups_view(groups@);
    let mut out: Vec<String> = Vec::new();
    let mut wasted: u64 = 0;
    let mut i: usize = 0;
    assert(lines_view(out@) =~= group_lines(gs, root@, single, 0));
    assert(gs.take(0) =~= Seq::<Seq<FileView>>::empty());
    while i < groups.len()
        invariant
            i <= groups.len(),
            gs == groups_view(groups@),
            none_empty(gs),
            wasted_total(gs) <= u64::MAX,
            wasted == wasted_total(gs.take(i as int)),
            lines_view(out@) == group_lines(gs, root@, single, i as int),
        decreases groups@.len() - i,
    {
        let group = &groups[i];
        let ghost files = group_view(group@);
        assert(gs[i as int] == files);
        assert(files[0] == group@[0]@);
        let size: u64 = group[0].size;
        let mut heading = String::new();
        heading.append("Group ");
        push_decimal(&mut heading, (i + 1) as u64);
        heading.append(" (");
        let text = format_size_simple(size);
        heading.append(text.as_str());
        heading.append("):");
        assert(heading@ =~= group_heading(i as int, files));
        let ghost out0 = lines_view(out@);
        out.push(heading);
        assert(lines_view(out@) =~= out0.push(group_heading(i as int, files)));
        let ghost before = lines_view(out@);
        let mut k: usize = 0;
        assert(lines_view(out@) =~= before + listed_lines(files, root@, single, 0));
        while k < group.len()
            invariant
                k <= group@.len(),
                files == group_view(group@),
                lines_view(out@) == before + listed_lines(files, root@, single, k as int),
            decreases group@.len() - k,
        {
            assert(files[k as int] == group@[k as int]@);
            let mut line = String::new();
            line.append("  ");
            let text = if single {
                group[k].path.within(root).to_text()
            } else {
                group[k].path.to_text()
            };
            line.append(text.as_str());
            let ghost l = line@;
            let ghost out1 = lines_view(out@);
            assert(l =~= "  "@ + listed_path(files[k as int], root@, single));
            out.push(line);
            assert(lines_view(out@) =~= out1.push(l));
            k += 1;
            assert(lines_view(out@) =~= before + listed_lines(files, root@, single, k as int));
        }
        proof {
            lemma_wasted_grows(gs, i + 1);
            assert(gs.take(i + 1).drop_last() =~= gs.take(i as int));
            assert(gs.take(i + 1).last() == files);
            let n = group.len();
            assert(size * (n - 1) >= 0) by (nonlinear_arith)
                requires
                    size >= 0,
                    n >= 1,
            ;
        }
        wasted += size * (group.len() as u64 - 1);
        i += 1;
    }
    assert(gs.take(i as int) =~= gs);
    proof {
        wasted_is_held(gs);
    }
    let ghost body = lines_view(out@);
    out.push(String::new());
    assert(lines_view(out@) =~= body.push(seq![]));
    let mut last = String::new();
    push_decimal(&mut last, groups.len() as u64);
    last.append(" groups, ");
    let text = format_size_simple(wasted);
    last.append(text.as_str());
    last.append(" wasted space");
    assert(last@ =~= totals_line(gs));
    let ghost l = last@;
    out.push(last);
    assert(lines_view(out@) =~= body.push(seq![]).push(l));
    out
}

/// Whether the bytes that could be saved can be counted.
pub fn wasted_fits(groups: &DuplicateGroups) -> (r: bool)
    requires
        none_empty(groups_view(groups@)),
    ensures
        r == (wasted_total(groups_view(groups@)) <= u64::MAX),
{
    let ghost gs = groups_view(groups@);
    let mut wasted: u64 = 0;
    let mut i: usize = 0;
    assert(gs.take(0) =~= Seq::<Seq<FileView>>::empty());
    while i < groups.len()
        invariant
            i <= groups@.len(),
            gs == groups_view(groups@),
            none_empty(gs),
            wasted == wasted_total(gs.take(i as int)),
        decreases groups@.len() - i,
    {
        let group = &groups[i];
        let ghost files = group_view(group@);
        assert(gs[i as int] == files);
        proof {
            lemma_wasted_grows(gs, i + 1);
            assert(gs.take(i + 1).drop_last() =~= gs.take(i as int));
            assert(gs.take(i + 1).last() == files);
            assert(files[0] == group@[0]@);
        }
        match group[0].size.checked_mul(group.len() as u64 - 1) {
            Some(more) => match wasted.checked_add(more) {
                Some(sum) => {
                    wasted = sum;
                },
                None => {
                    return false;
                },
            },
            None => {
                return false;
            },
        }
        i += 1;
    }
    assert(gs.take(i as int) =~= gs);
    true
}

} // verus!
