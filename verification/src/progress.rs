//! What is shown while a scan runs.
use vstd::prelude::*;

use crate::scanner::ScanProgress;
use crate::text::{decimal, push_decimal};

verus! {

/// What is shown at present.
#[derive(Debug, Clone, Copy, PartialEq, Eq, Structural)]
pub enum BarKind {
    /// Nothing yet.
    Missing,
    /// A sign of life while directories are listed.
    Spinner,
    /// How many directories were read.
    Walking,
    /// How many starts of files were hashed.
    Heads,
    /// How many ends of files were hashed.
    Tails,
    /// How many files were compared at last.
    Verifying,
}

/// How what was shown is put away.
#[derive(Debug, Clone, Copy, PartialEq, Eq, Structural)]
pub enum PutAway {
    /// It stays.
    Stays,
    /// It vanishes.
    Cleared,
    /// It is marked as done.
    Ticked,
}

/// What is shown next.
#[derive(Debug)]
pub struct BarUpdate {
    /// What is shown.
    pub kind: BarKind,
    /// How what was shown before is put away.
    pub before: PutAway,
    pub prefix: String,
    pub message: String,
    pub length: usize,
    pub position: usize,
}

/// What a `BarUpdate` stands for.
pub struct UpdateView {
    pub kind: BarKind,
    pub before: PutAway,
    pub prefix: Seq<char>,
    pub message: Seq<char>,
    pub length: usize,
    pub position: usize,
}

impl View for BarUpdate {
    type V = UpdateView;

    open spec fn view(&self) -> UpdateView {
        UpdateView {
            kind: self.kind,
            before: self.before,
            prefix: self.prefix@,
            message: self.message@,
            length: self.length,
            position: self.position,
        }
    }
}

/// What is shown while directories are read: a sign of life until the first was read.
pub open spec fn walking_kind(kind: BarKind, p: ScanProgress) -> BarKind {
    if p.dirs_done > 0 {
        BarKind::Walking
    } else if kind == BarKind::Missing {
        BarKind::Spinner
    } else {
        kind
    }
}

/// What is shown in a stage in which files are hashed.
pub open spec fn hashing_update(
    kind: BarKind,
    next: BarKind,
    prefix: Seq<char>,
    message: Seq<char>,
    p: ScanProgress,
) -> UpdateView {
    UpdateView {
        kind: next,
        before: if kind == next {
            PutAway::Stays
        } else {
            PutAway::Ticked
        },
        prefix,
        message,
        length: p.to_hash,
        position: p.hashed,
    }
}

/// How many files are hashed in a stage.
pub open spec fn candidates_message(p: ScanProgress) -> Seq<char> {
    "("@ + decimal(p.to_hash as nat) + " candidates)"@
}

/// What is shown next, by what is shown and how far the scan has come; nothing once it is done.
pub open spec fn update_for(kind: BarKind, p: ScanProgress) -> Option<UpdateView> {
    if p.stage >= 4 {
        None
    } else if p.stage == 0 {
        let next = walking_kind(kind, p);
        Some(
            if next == BarKind::Spinner {
                UpdateView {
                    kind: next,
                    before: PutAway::Stays,
                    prefix: seq![],
                    message: "Collecting directories... "@ + decimal(p.dirs_total as nat)
                        + " found"@,
                    length: 0,
                    position: 0,
                }
            } else {
                UpdateView {
                    kind: next,
                    before: if kind == next {
                        PutAway::Stays
                    } else {
                        PutAway::Cleared
                    },
                    prefix: "Walking"@,
                    message: "("@ + decimal(p.files_found as nat) + " files)"@,
                    length: p.dirs_total,
                    position: p.dirs_done,
                }
            },
        )
    } else if p.stage == 1 {
        Some(
            hashing_update(kind, BarKind::Heads, "Head hash"@, candidates_message(p), p),
        )
    } else if p.stage == 2 {
        Some(
            hashing_update(kind, BarKind::Tails, "Tail hash"@, candidates_message(p), p),
        )
    } else {
        Some(
            hashing_update(
                kind,
                BarKind::Verifying,
                "Verifying"@,
                "("@ + decimal(p.groups_found as nat) + " groups, "@ + decimal(
                    p.dupes_found as nat,
                ) + " dupes)"@,
                p,
            ),
        )
    }
}

fn put_away(kind: BarKind, next: BarKind, how: PutAway) -> (r: PutAway)
    ensures
        r == if kind == next {
            PutAway::Stays
        } else {
            how
        },
{
    if kind == next {
        PutAway::Stays
    } else {
        how
    }
}

fn count_candidates(p: &ScanProgress) -> (r: String)
    ensures
        r@ == candidates_message(*p),
{
    let mut r = String::new();
    r.append("(");
    push_decimal(&mut r, p.to_hash as u64);
    r.append(" candidates)");
    assert(r@ =~= candidates_message(*p));
    r
}

/// Says what is shown next.
pub fn next_update(kind: BarKind, p: &ScanProgress) -> (r: Option<BarUpdate>)
    ensures
        match r {
            Some(u) => update_for(kind, *p) == Some(u@),
            None => update_for(kind, *p) is None,
        },
{
    if p.stage >= 4 {
        return None;
    }
    if p.stage == 0 {
        let next: BarKind = if p.dirs_done > 0 {
            BarKind::Walking
        } else if kind == BarKind::Missing {
            BarKind::Spinner
        } else {
            kind
        };
        let mut message = String::new();
        if next == BarKind::Spinner {
            message.append("Collecting directories... ");
            push_decimal(&mut message, p.dirs_total as u64);
            message.append(" found");
            let u = BarUpdate {
                kind: next,
                before: PutAway::Stays,
                prefix: String::new(),
                message,
                length: 0,
                position: 0,
            };
            assert(u@.prefix =~= Seq::<char>::empty());
            assert(u@.message =~= (update_for(kind, *p)->0).message);
            return Some(u);
        }
        message.append("(");
        push_decimal(&mut message, p.files_found as u64);
        message.append(" files)");
        let u = BarUpdate {
            kind: next,
            before: put_away(kind, next, PutAway::Cleared),
            prefix: "Walking".to_owned(),
            message,
            length: p.dirs_total,
            position: p.dirs_done,
        };
        assert(u@.message =~= (update_for(kind, *p)->0).message);
        return Some(u);
    }
    if p.stage == 1 {
        return Some(
            BarUpdate {
                kind: BarKind::Heads,
                before: put_away(kind, BarKind::Heads, PutAway::Ticked),
                prefix: "Head hash".to_owned(),
                message: count_candidates(p),
                length: p.to_hash,
                position: p.hashed,
            },
        );
    }
    if p.stage == 2 {
        return Some(
            BarUpdate {
                kind: BarKind::Tails,
                before: put_away(kind, BarKind::Tails, PutAway::Ticked),
                prefix: "Tail hash".to_owned(),
                message: count_candidates(p),
                length: p.to_hash,
                position: p.hashed,
            },
        );
    }
    let mut message = String::new();
    message.append("(");
    push_decimal(&mut message, p.groups_found as u64);
    message.append(" groups, ");
    push_decimal(&mut message, p.dupes_found as u64);
    message.append(" dupes)");
    let u = BarUpdate {
        kind: BarKind::Verifying,
        before: put_away(kind, BarKind::Verifying, PutAway::Ticked),
        prefix: "Verifying".to_owned(),
        message,
        length: p.to_hash,
        position: p.hashed,
    };
    assert(u@.message =~= (update_for(kind, *p)->0).message);
    Some(u)
}

/// What is said at the end of a scan.
pub open spec fn scan_result(files: nat, groups: nat, duplicates: nat) -> Seq<char> {
    "Scanned "@ + decimal(files) + " files. Found "@ + decimal(groups) + " groups ("@ + decimal(
        duplicates,
    ) + " duplicate files)."@
}

/// Says at the end of a scan what was found.
pub fn describe_result(files: usize, groups: usize, duplicates: usize) -> (r: String)
    ensures
        r@ == scan_result(files as nat, groups as nat, duplicates as nat),
{
    let mut r = String::new();
    r.append("Scanned ");
    push_decimal(&mut r, files as u64);
    r.append(" files. Found ");
    push_decimal(&mut r, groups as u64);
    r.append(" groups (");
    push_decimal(&mut r, duplicates as u64);
    r.append(" duplicate files).");
    assert(r@ =~= scan_result(files as nat, groups as nat, duplicates as nat));
    r
}

} // verus!
