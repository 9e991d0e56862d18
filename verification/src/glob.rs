//! Glob patterns for names.
use vstd::prelude::*;

use crate::text::chars_of;

verus! {

/// `n` matches the pattern `p`: `*` stands for any text, `?` for any one character, and every
/// other character for itself.
pub open spec fn glob(p: Seq<char>, n: Seq<char>) -> bool
    decreases p.len(), n.len(),
{
    if p.len() == 0 {
        n.len() == 0
    } else if p[0] == '*' {
        glob(p.skip(1), n) || (n.len() > 0 && glob(p, n.skip(1)))
    } else {
        n.len() > 0 && (p[0] == '?' || p[0] == n[0]) && glob(p.skip(1), n.skip(1))
    }
}

/// A pattern that begins with `*` matches whatever ends with something that it matches.
proof fn lemma_star_extends(p: Seq<char>, n: Seq<char>, k: int)
    requires
        p.len() > 0,
        p[0] == '*',
        0 <= k <= n.len(),
        glob(p, n.skip(k)),
    ensures
        glob(p, n),
    decreases k,
{
    if k == 0 {
        assert(n.skip(0) =~= n);
    } else {
        assert(n.skip(1).skip(k - 1) =~= n.skip(k));
        lemma_star_extends(p, n.skip(1), k - 1);
    }
}

/// What matches a pattern that begins with `*` ends with something that the rest matches.
proof fn lemma_star_witness(p: Seq<char>, n: Seq<char>) -> (k: int)
    requires
        p.len() > 0,
        p[0] == '*',
        glob(p, n),
    ensures
        0 <= k <= n.len(),
        glob(p.skip(1), n.skip(k)),
    decreases n.len(),
{
    if glob(p.skip(1), n) {
        assert(n.skip(0) =~= n);
        0
    } else {
        let m = lemma_star_witness(p, n.skip(1));
        assert(n.skip(1).skip(m) =~= n.skip(m + 1));
        m + 1
    }
}

/// A stretch of the pattern without `*` takes up as many characters of the name.
proof fn lemma_stretch(p: Seq<char>, n: Seq<char>, a: int, b: int, k: int)
    requires
        0 <= a <= b <= p.len(),
        0 <= k <= n.len(),
        forall|j: int| a <= j < b ==> p[j] != '*',
        glob(p.skip(a), n.skip(k)),
    ensures
        k + (b - a) <= n.len(),
        glob(p.skip(b), n.skip(k + (b - a))),
    decreases b - a,
{
    if a < b {
        assert(p.skip(a)[0] == p[a]);
        assert(p.skip(a).skip(1) =~= p.skip(a + 1));
        assert(n.skip(k).skip(1) =~= n.skip(k + 1));
        lemma_stretch(p, n, a + 1, b, k + 1);
    }
}

proof fn lemma_step(p: Seq<char>, n: Seq<char>, a: int, k: int)
    requires
        0 <= a < p.len(),
        0 <= k < n.len(),
    ensures
        p[a] != '*' ==> (glob(p.skip(a), n.skip(k)) == ((p[a] == '?' || p[a] == n[k]) && glob(
            p.skip(a + 1),
            n.skip(k + 1),
        ))),
        p[a] == '*' ==> (glob(p.skip(a), n.skip(k)) == (glob(p.skip(a + 1), n.skip(k)) || glob(
            p.skip(a),
            n.skip(k + 1),
        ))),
{
    assert(p.skip(a)[0] == p[a]);
    assert(n.skip(k)[0] == n[k]);
    assert(p.skip(a).skip(1) =~= p.skip(a + 1));
    assert(n.skip(k).skip(1) =~= n.skip(k + 1));
}

/// At the end of the name only stars may be left of the pattern.
proof fn lemma_at_end(p: Seq<char>, n: Seq<char>, a: int)
    requires
        0 <= a <= p.len(),
    ensures
        glob(p.skip(a), n.skip(n.len() as int)) == (a == p.len() || (p[a] == '*' && glob(
            p.skip(a + 1),
            n.skip(n.len() as int),
        ))),
{
    if a < p.len() {
        assert(p.skip(a)[0] == p[a]);
        assert(p.skip(a).skip(1) =~= p.skip(a + 1));
    }
}

/// The text after the last `*`, from where it is tried, stands in `sp`, `sn`; as much of it as
/// has been matched ends at `pi`, `ni`.
spec fn tried(p: Seq<char>, n: Seq<char>, sp: int, sn: int, pi: int, ni: int) -> bool {
    &&& 0 <= sp < pi <= p.len()
    &&& 0 <= sn <= ni <= n.len()
    &&& p[sp] == '*'
    &&& ni - sn == pi - (sp + 1)
    &&& forall|j: int| sp < j < pi ==> p[j] != '*'
    &&& glob(p, n) == glob(p.skip(sp), n.skip(sn))
    &&& glob(p.skip(sp + 1), n.skip(sn)) == glob(p.skip(pi), n.skip(ni))
}

/// Matches a name against a glob pattern with the wildcards `*` and `?`.
pub fn glob_match(pattern: &str, name: &str) -> (r: bool)
    ensures
        r == glob(pattern@, name@),
{
    let p = chars_of(pattern);
    let n = chars_of(name);
    let mut pi: usize = 0;
    let mut ni: usize = 0;
    let mut star: Option<(usize, usize)> = None;
    assert(p@.skip(0) =~= p@);
    assert(n@.skip(0) =~= n@);
    while ni < n.len()
        invariant
            p@ == pattern@,
            n@ == name@,
            pi <= p@.len(),
            ni <= n@.len(),
            match star {
                Some((sp, sn)) => tried(p@, n@, sp as int, sn as int, pi as int, ni as int),
                None => glob(p@, n@) == glob(p@.skip(pi as int), n@.skip(ni as int)),
            },
        decreases
            p@.len() - (match star {
                Some((sp, _)) => sp as int,
                None => -1,
            }),
            n@.len() - (match star {
                Some((_, sn)) => sn as int,
                None => 0,
            }),
            n@.len() - ni,
    {
        if pi < p.len() && p[pi] == '*' {
            proof {
                if let Some((sp, sn)) = star {
                    // The stretch after the earlier star is matched as early as can be.
                    if glob(p@.skip(pi as int), n@.skip(ni as int)) {
                        assert(glob(p@.skip(sp + 1), n@.skip(sn as int)));
                        if sn < n@.len() {
                            lemma_step(p@, n@, sp as int, sn as int);
                        }
                        assert(glob(p@, n@));
                    } else if glob(p@, n@) {
                        let q = p@.skip(sp as int);
                        assert(q[0] == '*');
                        let k = lemma_star_witness(q, n@.skip(sn as int));
                        assert(q.skip(1) =~= p@.skip(sp + 1));
                        assert(n@.skip(sn as int).skip(k) =~= n@.skip(sn + k));
                        lemma_stretch(p@, n@, sp + 1, pi as int, sn + k);
                        let rest = p@.skip(pi as int);
                        assert(rest[0] == '*');
                        assert(n@.skip(ni as int).skip(k) =~= n@.skip(ni + k));
                        lemma_star_extends(rest, n@.skip(ni as int), k);
                    }
                }
            }
            star = Some((pi, ni));
            pi += 1;
        } else if pi < p.len() && (p[pi] == '?' || p[pi] == n[ni]) {
            proof {
                lemma_step(p@, n@, pi as int, ni as int);
            }
            pi += 1;
            ni += 1;
        } else {
            proof {
                if pi < p@.len() {
                    lemma_step(p@, n@, pi as int, ni as int);
                } else {
                    assert(p@.skip(pi as int).len() == 0);
                    assert(n@.skip(ni as int).len() > 0);
                }
                assert(!glob(p@.skip(pi as int), n@.skip(ni as int)));
            }
            match star {
                Some((sp, sn)) => {
                    proof {
                        lemma_step(p@, n@, sp as int, sn as int);
                    }
                    star = Some((sp, sn + 1));
                    pi = sp + 1;
                    ni = sn + 1;
                },
                None => {
                    return false;
                },
            }
        }
    }
    let ghost end = pi;
    while pi < p.len() && p[pi] == '*'
        invariant
            p@ == pattern@,
            n@ == name@,
            pi <= p@.len(),
            glob(p@.skip(pi as int), n@.skip(n@.len() as int)) == glob(
                p@.skip(end as int),
                n@.skip(n@.len() as int),
            ),
        decreases p@.len() - pi,
    {
        proof {
            lemma_at_end(p@, n@, pi as int);
        }
        pi += 1;
    }
    proof {
        lemma_at_end(p@, n@, pi as int);
        if let Some((sp, sn)) = star {
            if glob(p@.skip(end as int), n@.skip(n@.len() as int)) {
                if sn < n@.len() {
                    lemma_step(p@, n@, sp as int, sn as int);
                } else {
                    lemma_at_end(p@, n@, sp as int);
                }
            } else if glob(p@, n@) {
                let q = p@.skip(sp as int);
                assert(q[0] == '*');
                let k = lemma_star_witness(q, n@.skip(sn as int));
                assert(q.skip(1) =~= p@.skip(sp + 1));
                assert(n@.skip(sn as int).skip(k) =~= n@.skip(sn + k));
                lemma_stretch(p@, n@, sp + 1, end as int, sn + k);
            }
        }
    }
    pi == p.len()
}

// ---------------------------------------------------------------------------
// What patterns match
// ---------------------------------------------------------------------------

/// `*` matches every name.
pub proof fn star_matches_everything(n: Seq<char>)
    ensures
        glob(seq!['*'], n),
    decreases n.len(),
{
    let p = seq!['*'];
    let rest = p.skip(1);
    assert(rest.len() == 0);
    assert(glob(rest, n) <==> n.len() == 0);
    if n.len() > 0 {
        star_matches_everything(n.skip(1));
    }
}

/// A pattern without wildcards matches the name that is written like it, and no other.
pub proof fn plain_pattern_matches_itself(p: Seq<char>, n: Seq<char>)
    requires
        !p.contains('*'),
        !p.contains('?'),
    ensures
        glob(p, n) <==> p == n,
    decreases p.len(),
{
    if p.len() > 0 {
        assert(p.contains(p[0]));
        if n.len() > 0 {
            assert forall|c: char| p.skip(1).contains(c) implies p.contains(c) by {
                let i = choose|i: int| 0 <= i < p.skip(1).len() && p.skip(1)[i] == c;
                assert(p[i + 1] == c);
            }
            plain_pattern_matches_itself(p.skip(1), n.skip(1));
            assert(p =~= seq![p[0]] + p.skip(1));
            assert(n =~= seq![n[0]] + n.skip(1));
        }
    } else {
        assert(n.len() == 0 ==> p =~= n);
    }
}

/// `?` stands for one character: a pattern of so many of them matches the names of that length.
pub proof fn question_marks_count(p: Seq<char>, n: Seq<char>)
    requires
        forall|i: int| 0 <= i < p.len() ==> #[trigger] p[i] == '?',
    ensures
        glob(p, n) <==> p.len() == n.len(),
    decreases p.len(),
{
    if p.len() > 0 && n.len() > 0 {
        question_marks_count(p.skip(1), n.skip(1));
    }
}

// ---------------------------------------------------------------------------
// What patterns match
// ---------------------------------------------------------------------------

/// A pattern in two parts matches what can be cut in two so that each part matches its part. With
/// what each single character matches, this says what every pattern does.
pub proof fn parts_match_parts(p: Seq<char>, q: Seq<char>, n: Seq<char>)
    ensures
        glob(p + q, n) <==> exists|k: int|
            0 <= k <= n.len() && #[trigger] glob(p, n.take(k)) && glob(q, n.skip(k)),
    decreases p.len(), n.len(),
{
    let all = p + q;
    if p.len() == 0 {
        assert(all =~= q);
        assert(n.skip(0) =~= n);
        assert(glob(p, n.take(0)));
    } else {
        let rest = p.skip(1);
        assert(all.skip(1) =~= rest + q);
        assert(all[0] == p[0]);
        if p[0] == '*' {
            parts_match_parts(rest, q, n);
            if n.len() > 0 {
                let m = n.skip(1);
                parts_match_parts(p, q, m);
                if glob(all, m) {
                    let j = choose|j: int|
                        0 <= j <= m.len() && #[trigger] glob(p, m.take(j)) && glob(q, m.skip(j));
                    assert(n.take(j + 1).skip(1) =~= m.take(j));
                    assert(n.skip(j + 1) =~= m.skip(j));
                    assert(glob(p, n.take(j + 1)));
                }
            }
            if glob(rest + q, n) {
                let j = choose|j: int|
                    0 <= j <= n.len() && #[trigger] glob(rest, n.take(j)) && glob(q, n.skip(j));
                assert(glob(p, n.take(j)));
            }
            if exists|k: int|
                0 <= k <= n.len() && #[trigger] glob(p, n.take(k)) && glob(q, n.skip(k)) {
                let k = choose|k: int|
                    0 <= k <= n.len() && #[trigger] glob(p, n.take(k)) && glob(q, n.skip(k));
                if !glob(rest, n.take(k)) {
                    let m = n.skip(1);
                    assert(n.take(k).skip(1) =~= m.take(k - 1));
                    assert(m.skip(k - 1) =~= n.skip(k));
                    assert(glob(p, m.take(k - 1)));
                }
            }
        } else if n.len() > 0 {
            let m = n.skip(1);
            parts_match_parts(rest, q, m);
            if glob(all, n) {
                let j = choose|j: int|
                    0 <= j <= m.len() && #[trigger] glob(rest, m.take(j)) && glob(q, m.skip(j));
                assert(n.take(j + 1).skip(1) =~= m.take(j));
                assert(n.skip(j + 1) =~= m.skip(j));
                assert(glob(p, n.take(j + 1)));
            }
            if exists|k: int|
                0 <= k <= n.len() && #[trigger] glob(p, n.take(k)) && glob(q, n.skip(k)) {
                let k = choose|k: int|
                    0 <= k <= n.len() && #[trigger] glob(p, n.take(k)) && glob(q, n.skip(k));
                assert(n.take(k).skip(1) =~= m.take(k - 1));
                assert(m.skip(k - 1) =~= n.skip(k));
                assert(glob(rest, m.take(k - 1)));
            }
        }
    }
}

/// The empty pattern matches nothing but the empty name; `*` matches every name, `?` every name of
/// one character, and any other character the name that is made of it alone.
pub proof fn characters_match(c: char, n: Seq<char>)
    ensures
        glob(seq![], n) <==> n.len() == 0,
        glob(seq!['*'], n),
        glob(seq!['?'], n) <==> n.len() == 1,
        c != '*' && c != '?' ==> (glob(seq![c], n) <==> n == seq![c]),
    decreases n.len(),
{
    reveal_with_fuel(glob, 3);
    assert(seq!['*'].skip(1) =~= Seq::<char>::empty());
    assert(seq!['?'].skip(1) =~= Seq::<char>::empty());
    assert(seq![c].skip(1) =~= Seq::<char>::empty());
    if n.len() > 0 {
        characters_match(c, n.skip(1));
        if n.len() == 1 && n[0] == c {
            assert(n =~= seq![c]);
        }
    }
}

} // verus!
