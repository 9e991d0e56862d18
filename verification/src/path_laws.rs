//! How paths are read, ordered, joined and cut.
use vstd::prelude::*;

use crate::order::{departs_below, lex};
use crate::path::{
    behind_first, behind_steps, byte_lt, full_join, full_parent, full_strip, last_slash,
    lemma_alone, lemma_behind, lemma_behind_slash, lemma_join, lemma_last_slash, lemma_parent,
    lemma_path_order, lemma_slash_bounds, lemma_slash_extends, path_before, path_join, path_name,
    path_of_bytes, piece_steps, relative_steps, slash_at, start_len, step_lt, trim_back, trim_front,
    without_last, written_behind, written_parent, written_path, PathView, Step,
};
use crate::text::{char_lt, lemma_text_order, text_before};

verus! {

// ---------------------------------------------------------------------------
// Order
// ---------------------------------------------------------------------------

/// Texts come in the order of the first characters in which they differ; a text comes before any
/// that goes on behind it, and never before itself.
pub proof fn texts_come_in_order_of_their_characters(
    front: Seq<char>,
    a: char,
    b: char,
    x: Seq<char>,
    y: Seq<char>,
)
    requires
        (a as int) < (b as int),
    ensures
        text_before(front.push(a) + x, front.push(b) + y),
        !text_before(front.push(b) + y, front.push(a) + x),
        text_before(front, front.push(a) + x),
        !text_before(front.push(a) + x, front),
        !text_before(front, front),
{
    let p = front.push(a) + x;
    let q = front.push(b) + y;
    let k = front.len() as int;
    let before = lex(char_lt());
    lemma_text_order();
    assert(departs_below(p, q, k, char_lt()));
    assert(before(p, q));
    assert(departs_below(front, p, k, char_lt()));
    assert(before(front, p));
    assert(before(front, front) ==> !before(front, front));
}

/// One component comes before another: the root first, then `.`, then `..`, and then names in the
/// order of the first bytes in which they differ.
pub open spec fn step_goes_first(a: Step, b: Step) -> bool {
    match (a, b) {
        (Step::RootDir, Step::CurDir) => true,
        (Step::RootDir, Step::ParentDir) => true,
        (Step::RootDir, Step::Normal(_)) => true,
        (Step::CurDir, Step::ParentDir) => true,
        (Step::CurDir, Step::Normal(_)) => true,
        (Step::ParentDir, Step::Normal(_)) => true,
        (Step::Normal(m), Step::Normal(n)) => exists|k: int|
            0 <= k <= m.len() && k < n.len() && #[trigger] m.take(k) == n.take(k) && (k == m.len()
                || m[k] < n[k]),
        _ => false,
    }
}

proof fn lemma_step_goes_first(a: Step, b: Step)
    requires
        step_goes_first(a, b),
    ensures
        step_lt()(a, b),
{
    if let (Step::Normal(m), Step::Normal(n)) = (a, b) {
        let k = choose|k: int|
            0 <= k <= m.len() && k < n.len() && #[trigger] m.take(k) == n.take(k) && (k == m.len()
                || m[k] < n[k]);
        assert forall|j: int| 0 <= j < k implies m[j] == n[j] by {
            assert(m.take(k)[j] == n.take(k)[j]);
        }
        assert(departs_below(m, n, k, byte_lt()));
    }
}

/// Paths come in the order of the first components in which they differ; a directory comes before
/// what lies below it, and no path before itself.
pub proof fn paths_come_in_order_of_their_components(
    front: Seq<Step>,
    a: Step,
    b: Step,
    x: Seq<Step>,
    y: Seq<Step>,
)
    requires
        step_goes_first(a, b),
    ensures
        path_before(front.push(a) + x, front.push(b) + y),
        !path_before(front.push(b) + y, front.push(a) + x),
        path_before(front, front.push(a) + x),
        !path_before(front.push(a) + x, front),
        !path_before(front, front),
{
    let p = front.push(a) + x;
    let q = front.push(b) + y;
    let k = front.len() as int;
    let before = lex(step_lt());
    lemma_path_order();
    lemma_step_goes_first(a, b);
    assert(departs_below(p, q, k, step_lt()));
    assert(before(p, q));
    assert(departs_below(front, p, k, step_lt()));
    assert(before(front, p));
    assert(before(front, front) ==> !before(front, front));
}

// ---------------------------------------------------------------------------
// Reading
// ---------------------------------------------------------------------------

/// What stands between two separators.
pub open spec fn is_piece(b: Seq<u8>) -> bool {
    forall|i: int| 0 <= i < b.len() ==> #[trigger] b[i] != 47
}

/// A path is read piece by piece. Behind a separator, nothing and `.` stand for nothing, `..` for
/// the parent, and all else for a name. At the beginning of a path a `.` counts, and a separator is
/// the root.
pub proof fn paths_are_read_piece_by_piece(a: Seq<u8>, piece: Seq<u8>)
    requires
        is_piece(piece),
    ensures
        path_of_bytes(seq![]) == Seq::<Step>::empty(),
        path_of_bytes(seq![47u8]) == seq![Step::RootDir],
        a.len() > 0 ==> path_of_bytes(a.push(47) + piece) == path_of_bytes(a) + if piece.len() == 0
            || piece == seq![46u8] {
            Seq::<Step>::empty()
        } else if piece == seq![46u8, 46u8] {
            seq![Step::ParentDir]
        } else {
            seq![Step::Normal(piece)]
        },
        path_of_bytes(piece) == if piece.len() == 0 {
            Seq::<Step>::empty()
        } else if piece == seq![46u8] {
            seq![Step::CurDir]
        } else if piece == seq![46u8, 46u8] {
            seq![Step::ParentDir]
        } else {
            seq![Step::Normal(piece)]
        },
{
    assert(path_of_bytes(seq![]) =~= Seq::<Step>::empty());
    assert(seq![47u8].skip(1) =~= Seq::<u8>::empty());
    assert(path_of_bytes(seq![47u8]) =~= seq![Step::RootDir]);
    assert(!piece.contains(47u8));
    lemma_alone(piece, true);
    lemma_alone(piece, false);
    if a.len() > 0 {
        let all = a.push(47) + piece;
        if a[0] == 47 {
            let rest = a.skip(1);
            assert(all.skip(1) =~= rest.push(47) + piece);
            lemma_behind_slash(rest, piece, false);
        } else {
            lemma_behind_slash(a, piece, true);
        }
        assert(path_of_bytes(all) =~= path_of_bytes(a) + piece_steps(piece, false));
    }
}

// ---------------------------------------------------------------------------
// Joining and cutting
// ---------------------------------------------------------------------------

/// A path as seen from a directory is written behind that, with one separator between them, unless
/// it begins with one itself.
pub proof fn paths_are_joined_by_a_separator(p: PathView, q: PathView)
    ensures
        q.written.len() > 0 && q.written[0] == 47 ==> full_join(p, q).written == q.written,
        !(q.written.len() > 0 && q.written[0] == 47) ==> full_join(p, q).written
            == if p.written.len() == 0 || p.written.last() == 47 {
            p.written + q.written
        } else {
            p.written + seq![47u8] + q.written
        },
{
    assert(p.written.push(47) + q.written =~= p.written + seq![47u8] + q.written);
}

/// A path that lies in a directory is followed from there by its other components; any other path is
/// not. Joined to the directory again, they give the path.
pub proof fn paths_are_cut_behind_a_directory(p: PathView, base: Seq<Step>)
    ensures
        full_strip(p, base) is Some <==> base.len() <= p.steps.len() && forall|i: int|
            0 <= i < base.len() ==> #[trigger] p.steps[i] == base[i],
        (full_strip(p, base) matches Some(rel) ==> base + rel.steps == p.steps && rel.written
            == written_behind(p.written, base.len() as int)),
        (full_strip(p, base) matches Some(rel) ==> (rel.steps.len() > 0 && rel.steps[0] is Normal
            ==> path_join(base, rel.steps) == p.steps)),
{
    let n = base.len() as int;
    if n <= p.steps.len() {
        assert(p.steps.take(n) =~= base <==> forall|i: int|
            0 <= i < n ==> #[trigger] p.steps[i] == base[i]) by {
            if p.steps.take(n) == base {
                assert forall|i: int| 0 <= i < n implies #[trigger] p.steps[i] == base[i] by {
                    assert(p.steps.take(n)[i] == p.steps[i]);
                }
            }
        }
        if p.steps.take(n) == base {
            assert(base + p.steps.skip(n) =~= p.steps);
        }
    }
}

/// What is written of a joined path, of a directory and of what follows one is read as it should
/// be.
pub proof fn what_is_written_is_read(a: Seq<u8>, b: Seq<u8>, n: int)
    ensures
        full_join(written_path(a), written_path(b)).steps == path_of_bytes(
            full_join(written_path(a), written_path(b)).written,
        ),
        (full_parent(written_path(a)) matches Some(dir) ==> dir.steps == path_of_bytes(dir.written)),
        0 <= n <= path_of_bytes(a).len() ==> path_of_bytes(written_behind(a, n)) == path_of_bytes(
            a,
        ).subrange(n, path_of_bytes(a).len() as int),
{
    lemma_join(a, b);
    if full_parent(written_path(a)) is Some {
        lemma_parent(a);
    }
    if 0 <= n <= path_of_bytes(a).len() {
        lemma_behind(a, n);
        assert(path_of_bytes(a).skip(n) =~= path_of_bytes(a).subrange(
            n,
            path_of_bytes(a).len() as int,
        ));
    }
}

/// A path whose last piece stands for something: there is no separator at its end, nor a `.` behind
/// one.
pub open spec fn ends_well(a: Seq<u8>) -> bool {
    &&& a.len() > 0
    &&& a.last() != 47
    &&& !(a.last() == 46 && (a.len() == 1 || a[a.len() - 2] == 47))
}

/// A path whose first piece stands for something: there is no separator at its beginning, nor a `.`
/// before one.
pub open spec fn begins_well(a: Seq<u8>) -> bool {
    &&& a.len() > 0
    &&& a[0] != 47
    &&& !(a[0] == 46 && (a.len() == 1 || a[1] == 47))
}

proof fn lemma_ends_well(a: Seq<u8>)
    requires
        ends_well(a),
    ensures
        piece_steps(a.skip(last_slash(a) + 1), false).len() > 0,
        trim_back(a) == a,
{
    lemma_last_slash(a);
    let k = last_slash(a);
    let piece = a.skip(k + 1);
    assert(piece.len() > 0);
    assert(piece.last() == a.last());
    if piece == seq![46u8] {
        assert(k + 1 == a.len() - 1);
        assert(k >= 0 ==> a[k] == 47);
    }
}

proof fn lemma_begins_well(a: Seq<u8>)
    requires
        begins_well(a),
    ensures
        trim_front(a) == a,
{
    lemma_slash_bounds(a);
    let k = slash_at(a);
    let piece = a.take(k);
    assert(piece.len() > 0 && piece[0] == a[0]);
    if piece == seq![46u8] {
        assert(k == 1);
        assert(a.len() > 1 ==> a[1] == 47);
    }
}

proof fn lemma_steps_end_well(a: Seq<u8>, leading: bool)
    requires
        ends_well(a),
    ensures
        relative_steps(a, leading).len() > 0,
    decreases a.len(),
{
    lemma_slash_bounds(a);
    let k = slash_at(a);
    if k < a.len() {
        let rest = a.skip(k + 1);
        assert(a[k] == 47);
        assert(rest.len() > 0) by {
            if rest.len() == 0 {
                assert(a.last() == a[k]);
            }
        }
        assert(rest.last() == a.last());
        assert(rest.len() > 1 ==> rest[rest.len() - 2] == a[a.len() - 2]);
        assert(rest.len() == 1 ==> a[a.len() - 2] == 47);
        lemma_steps_end_well(rest, false);
    } else {
        assert(a.take(k) =~= a);
    }
}

proof fn lemma_behind_all(a: Seq<u8>, rest: Seq<u8>, leading: bool)
    requires
        ends_well(a),
    ensures
        behind_steps(a.push(47) + rest, leading, relative_steps(a, leading).len() as int) == rest,
    decreases a.len(),
{
    let b = a.push(47) + rest;
    let more = seq![47u8] + rest;
    lemma_slash_bounds(a);
    lemma_steps_end_well(a, leading);
    assert(b =~= a + more);
    lemma_slash_extends(a, more);
    let k = slash_at(a);
    assert(b.take(k) =~= a.take(k));
    let n = relative_steps(a, leading).len() as int;
    let first = piece_steps(a.take(k), leading).len() as int;
    assert(slash_at(b) == k);
    assert(behind_steps(b, leading, n) == behind_steps(behind_first(b), false, n - first));
    if k < a.len() {
        let inner = a.skip(k + 1);
        assert(a[k] == 47);
        assert(inner.len() > 0) by {
            if inner.len() == 0 {
                assert(a.last() == a[k]);
            }
        }
        assert(inner.last() == a.last());
        assert(inner.len() > 1 ==> inner[inner.len() - 2] == a[a.len() - 2]);
        assert(inner.len() == 1 ==> a[a.len() - 2] == 47);
        assert(behind_first(b) =~= inner.push(47) + rest);
        assert(n == first + relative_steps(inner, false).len());
        lemma_behind_all(inner, rest, false);
    } else {
        assert(a.take(k) =~= a);
        assert(behind_first(b) =~= rest);
        assert(n == first);
        assert(behind_steps(rest, false, 0) == rest);
    }
}

/// The directory in which a file lies is written as all that stands before the last separator.
pub proof fn directories_are_written_as_they_stand(a: Seq<u8>, name: Seq<u8>)
    requires
        ends_well(a),
        is_piece(name),
        name.len() > 0,
        name != seq![46u8],
    ensures
        full_parent(written_path(a.push(47) + name)) == Some(written_path(a)),
{
    let b = a.push(47) + name;
    let start = start_len(b);
    assert(b[0] == a[0]);
    assert(a.len() > 1 ==> b[1] == a[1]);
    assert(a.len() == 1 ==> b[1] == 47);
    assert(a.len() == 1 ==> start == 0);
    let front = a.skip(start);
    let body = b.skip(start);
    assert(body =~= front.push(47) + name);
    assert(!name.contains(47u8));
    lemma_last_of_joined(front, name);
    assert(body.take(front.len() as int) =~= front);
    assert(body.skip(front.len() as int + 1) =~= name);
    assert(front.len() > 0);
    assert(front.last() == a.last());
    assert(front.len() > 1 ==> front[front.len() - 2] == a[a.len() - 2]);
    if front.len() == 1 && start == 1 {
        assert(a[0] == 47 ==> a[a.len() - 2] == 47);
        assert(a[0] == 46 ==> a[1] == 47);
    }
    lemma_ends_well(front);
    assert(piece_steps(name, false).len() > 0);
    assert(trim_back(body) == body);
    assert(written_parent(b) =~= a) by {
        assert(without_last(body) == front);
        assert(b.take(start) + front =~= a);
    }
    paths_are_read_piece_by_piece(a, name);
    let p = path_of_bytes(b);
    assert(p.drop_last() =~= path_of_bytes(a));
    assert(p.last() != Step::RootDir);
}

proof fn lemma_last_of_joined(front: Seq<u8>, name: Seq<u8>)
    requires
        !name.contains(47u8),
    ensures
        last_slash(front.push(47) + name) == front.len(),
    decreases name.len(),
{
    let b = front.push(47) + name;
    if name.len() > 0 {
        assert(name.contains(name.last()));
        assert(b.last() == name.last());
        let less = name.drop_last();
        assert(b.drop_last() =~= front.push(47) + less);
        assert forall|i: int| 0 <= i < less.len() implies less[i] != 47u8 by {
            assert(name.contains(name[i]));
        }
        lemma_last_of_joined(front, less);
    } else {
        assert(b.last() == 47);
    }
}

/// What follows a directory in a path is written as it stands behind that directory and a
/// separator.
pub proof fn what_follows_is_written_as_it_stands(a: Seq<u8>, rest: Seq<u8>)
    requires
        ends_well(a),
        begins_well(rest),
        ends_well(rest),
    ensures
        path_of_bytes(a).len() > 0,
        written_behind(a.push(47) + rest, path_of_bytes(a).len() as int) == rest,
{
    let b = a.push(47) + rest;
    assert(b[0] == a[0]);
    lemma_begins_well(rest);
    lemma_ends_well(rest);
    if a[0] == 47 {
        let inner = a.skip(1);
        assert(b.skip(1) =~= inner.push(47) + rest);
        assert(a.len() > 1);
        assert(inner.last() == a.last());
        assert(inner.len() > 1 ==> inner[inner.len() - 2] == a[a.len() - 2]);
        assert(inner.len() == 1 ==> a[a.len() - 2] == 47);
        lemma_behind_all(inner, rest, false);
        assert(path_of_bytes(a).len() == 1 + relative_steps(inner, false).len());
    } else {
        lemma_steps_end_well(a, true);
        lemma_behind_all(a, rest, true);
    }
}

/// A path is called by the name at its end, where there is one.
pub proof fn paths_are_called_by_their_last_name(p: Seq<Step>, name: Seq<u8>)
    ensures
        path_name(p.push(Step::Normal(name))) == Some(name),
        path_name(p.push(Step::ParentDir)) is None,
        path_name(p.push(Step::CurDir)) is None,
        path_name(p.push(Step::RootDir)) is None,
        path_name(seq![]) is None,
{
}


} // verus!
