//! How texts, sizes and answers are read, how sizes are written, and what is shown of a scan.
use vstd::arithmetic::power2::{lemma2_to64, lemma_pow2_unfold, pow2};
use vstd::prelude::*;

use crate::progress::{scan_result, update_for, BarKind};
use crate::prompt::{choice_for, results_question, scan_question, Found};
use crate::scanner::ScanProgress;
use crate::size::{
    double_spacing, fitting, kibi_power, lemma_trimmed_of_blanks, nearest_double, round_half_even,
    size_text, sizes_are_read_with_their_unit, tenths_of_unit, unit_factor, unit_of, unit_suffix,
    uppercase_size,
};
use crate::text::{
    ascii_uppercase, decimal, digit_char, has_infix, is_digit, is_white_space, lemma_numeral_digits,
    middle_cut, middle_cut_fits, stands_at, trim, trim_end, trim_start, u64_of, unsigned_digits,
};

verus! {

// ---------------------------------------------------------------------------
// Blanks
// ---------------------------------------------------------------------------

/// A character that is no blank stays where blanks are taken off.
proof fn lemma_trim_keeps(s: Seq<char>, c: char)
    requires
        s.contains(c),
        !is_white_space(c),
    ensures
        trim(s).contains(c),
{
    lemma_trim_start_keeps(s, c);
    lemma_trim_end_keeps(trim_start(s), c);
}

proof fn lemma_trim_start_keeps(s: Seq<char>, c: char)
    requires
        s.contains(c),
        !is_white_space(c),
    ensures
        trim_start(s).contains(c),
    decreases s.len(),
{
    if s.len() > 0 && is_white_space(s[0]) {
        let i = choose|i: int| 0 <= i < s.len() && s[i] == c;
        assert(s.skip(1)[i - 1] == c);
        lemma_trim_start_keeps(s.skip(1), c);
    }
}

proof fn lemma_trim_end_keeps(s: Seq<char>, c: char)
    requires
        s.contains(c),
        !is_white_space(c),
    ensures
        trim_end(s).contains(c),
    decreases s.len(),
{
    if s.len() > 0 && is_white_space(s.last()) {
        let i = choose|i: int| 0 <= i < s.len() && s[i] == c;
        assert(s.drop_last()[i] == c);
        lemma_trim_end_keeps(s.drop_last(), c);
    }
}

/// What is left where blanks are taken off was there before.
proof fn lemma_trim_is_part(s: Seq<char>, c: char)
    requires
        trim(s).contains(c),
    ensures
        s.contains(c),
{
    lemma_trim_end_is_part(trim_start(s), c);
    lemma_trim_start_is_part(s, c);
}

proof fn lemma_trim_start_is_part(s: Seq<char>, c: char)
    requires
        trim_start(s).contains(c),
    ensures
        s.contains(c),
    decreases s.len(),
{
    if s.len() > 0 && is_white_space(s[0]) {
        lemma_trim_start_is_part(s.skip(1), c);
        let i = choose|i: int| 0 <= i < s.skip(1).len() && s.skip(1)[i] == c;
        assert(s[i + 1] == c);
    }
}

proof fn lemma_trim_end_is_part(s: Seq<char>, c: char)
    requires
        trim_end(s).contains(c),
    ensures
        s.contains(c),
    decreases s.len(),
{
    if s.len() > 0 && is_white_space(s.last()) {
        lemma_trim_end_is_part(s.drop_last(), c);
        let i = choose|i: int| 0 <= i < s.drop_last().len() && s.drop_last()[i] == c;
        assert(s[i] == c);
    }
}

/// Blanks, tabs and ends of lines alone.
pub open spec fn are_blanks(s: Seq<char>) -> bool {
    forall|i: int|
        0 <= i < s.len() ==> #[trigger] s[i] == ' ' || s[i] == '\t' || s[i] == '\n' || s[i] == '\r'
}

/// A visible ASCII character.
pub open spec fn is_visible(c: char) -> bool {
    0x20 < c as int <= 0x7e
}

/// Blanks around a text make no difference to what is left of it once they are taken off: the text
/// from its first to its last visible character.
pub proof fn blanks_around_are_taken_off(before: Seq<char>, s: Seq<char>, after: Seq<char>)
    requires
        are_blanks(before),
        are_blanks(after),
        s.len() > 0,
        is_visible(s[0]),
        is_visible(s.last()),
    ensures
        trim(before + s + after) == s,
        trim(before).len() == 0,
{
    lemma_trimmed_of_blanks(before, s, after);
    if trim(before).len() > 0 {
        let c = trim(before).last();
        lemma_trim_end_ends(trim_start(before));
        lemma_trim_is_part(before, c);
    }
}

proof fn lemma_trim_end_ends(s: Seq<char>)
    ensures
        trim_end(s).len() > 0 ==> !is_white_space(trim_end(s).last()),
    decreases s.len(),
{
    if s.len() > 0 && is_white_space(s.last()) {
        lemma_trim_end_ends(s.drop_last());
    }
}

// ---------------------------------------------------------------------------
// Parts of texts
// ---------------------------------------------------------------------------

/// A text is found in another exactly where that can be put together of something before it, the
/// text itself and something behind it; nothing at all is found everywhere.
pub proof fn texts_are_found_where_they_stand(
    before: Seq<char>,
    needle: Seq<char>,
    after: Seq<char>,
    hay: Seq<char>,
)
    ensures
        has_infix(before + needle + after, needle),
        needle.len() == 0 ==> has_infix(hay, needle),
        has_infix(hay, needle) ==> exists|a: Seq<char>, b: Seq<char>|
            #[trigger] (a + needle + b) == hay,
        needle.len() > hay.len() ==> !has_infix(hay, needle),
{
    let all = before + needle + after;
    let at = before.len() as int;
    assert(all.subrange(at, at + needle.len()) =~= needle);
    assert(stands_at(all, needle, at));
    if needle.len() == 0 {
        assert(hay.subrange(0, 0) =~= needle);
        assert(stands_at(hay, needle, 0));
    }
    if has_infix(hay, needle) {
        let i = choose|i: int| #[trigger] stands_at(hay, needle, i);
        let a = hay.take(i);
        let b = hay.skip(i + needle.len());
        assert(a + needle + b =~= hay) by {
            assert forall|j: int| 0 <= j < hay.len() implies (a + needle + b)[j] == hay[j] by {
                if i <= j < i + needle.len() {
                    assert(hay.subrange(i, i + needle.len())[j - i] == hay[j]);
                }
            }
        }
    }
}

/// A text that fits is not cut, nor is any where there is no room for five characters.
pub proof fn texts_that_fit_stay_whole(s: Seq<char>, max_len: nat)
    ensures
        s.len() <= max_len || max_len < 5 ==> middle_cut(s, max_len) == s,
        s.len() > max_len && max_len >= 5 ==> middle_cut(s, max_len).len() == max_len
            && middle_cut(s, max_len) != s,
{
    if s.len() > max_len && max_len >= 5 {
        middle_cut_fits(s, max_len);
    }
}

// ---------------------------------------------------------------------------
// Sizes that are read
// ---------------------------------------------------------------------------

/// A size is read as a number of bytes, or of units of 1024 bytes, 1024 times 1024 bytes or 1024
/// times 1024 times 1024 bytes, by what stands behind the number.
pub proof fn units_are_powers_of_1024(
    n: u64,
    unit: Seq<char>,
    before: Seq<char>,
    between: Seq<char>,
    after: Seq<char>,
)
    requires
        are_blanks(before),
        are_blanks(between),
        are_blanks(after),
    ensures
        ({
            let s = ascii_uppercase(trim(before + decimal(n as nat) + between + unit + after));
            &&& unit.len() == 0 ==> uppercase_size(s) == n
            &&& unit == seq!['B'] || unit == seq!['b'] ==> uppercase_size(s) == n
            &&& unit == seq!['K', 'B'] || unit == seq!['k', 'b'] ==> uppercase_size(s) == n * 1024
            &&& unit == seq!['M', 'B'] || unit == seq!['m', 'b'] ==> uppercase_size(s) == n * (1024
                * 1024)
            &&& unit == seq!['G', 'B'] || unit == seq!['g', 'b'] ==> uppercase_size(s) == n * (1024
                * 1024 * 1024)
        }),
{
    let upper = ascii_uppercase(unit);
    let giga = seq!['G', 'B'];
    let mega = seq!['M', 'B'];
    let kilo = seq!['K', 'B'];
    let byte = seq!['B'];
    assert(giga[0] == 'G' && mega[0] == 'M' && kilo[0] == 'K' && byte.len() == 1);
    assert(unit == kilo || unit == seq!['k', 'b'] ==> upper =~= kilo);
    assert(unit == mega || unit == seq!['m', 'b'] ==> upper =~= mega);
    assert(unit == giga || unit == seq!['g', 'b'] ==> upper =~= giga);
    assert(unit == byte || unit == seq!['b'] ==> upper =~= byte);
    assert(upper == kilo ==> unit_factor(upper) == Some(1024nat));
    assert(upper == mega ==> unit_factor(upper) == Some(1048576nat));
    assert(upper == giga ==> unit_factor(upper) == Some(1073741824nat));
    assert(upper == byte || upper.len() == 0 ==> unit_factor(upper) == Some(1nat));
    if unit_factor(upper) is Some {
        sizes_are_read_with_their_unit(n, unit, before, between, after);
        let f = unit_factor(upper)->0;
        assert(f == 1 || f == 1024 || f == 1048576 || f == 1073741824 ==> n as nat * f == if f
            == 1 {
            n as int
        } else if f == 1024 {
            n * 1024
        } else if f == 1048576 {
            n * 1048576
        } else {
            n * 1073741824
        }) by (nonlinear_arith);
    }
}

/// What is not a number counts as none: a size without a digit, or with anything but digits, a sign
/// of plus, blanks and the letters of a unit.
pub proof fn what_is_no_number_is_none(s: Seq<char>, at: int)
    requires
        0 <= at < s.len(),
    ensures
        (forall|i: int| 0 <= i < s.len() ==> !('0' <= #[trigger] s[i] <= '9')) ==> uppercase_size(
            s,
        ) == 0,
        is_visible(s[at]) && !('0' <= s[at] <= '9') && s[at] != '+' && s[at] != 'G' && s[at] != 'M'
            && s[at] != 'K' && s[at] != 'B' ==> uppercase_size(s) == 0,
{
    let (len, factor) = unit_suffix(s);
    let part = s.take(s.len() - len);
    let number = trim(part);
    let digits = unsigned_digits(number);
    if u64_of(number) is Some {
        assert(is_digit(digits[0]));
        assert(number.contains(digits[0])) by {
            if number[0] == '+' {
                assert(number[1] == digits[0]);
            } else {
                assert(number[0] == digits[0]);
            }
        }
        lemma_trim_is_part(part, digits[0]);
        let i = choose|i: int| 0 <= i < part.len() && part[i] == digits[0];
        assert(s[i] == digits[0]);
        assert('0' <= s[i] <= '9');
        let c = s[at];
        if is_visible(c) && !('0' <= c <= '9') && c != '+' && c != 'G' && c != 'M' && c != 'K' && c
            != 'B' {
            if at >= s.len() - len {
                assert(s.skip(s.len() - len)[at - (s.len() - len)] == c);
                assert(false);
            }
            assert(part[at] == c);
            lemma_trim_keeps(part, c);
            let j = choose|j: int| 0 <= j < number.len() && number[j] == c;
            if number[0] == '+' {
                assert(digits[j - 1] == c);
            } else {
                assert(digits[j] == c);
            }
            assert(false);
        }
    }
}

/// A number of bytes is told wherever it fits in 64 bits.
pub proof fn sizes_are_told_where_they_fit(n: nat)
    ensures
        n <= 0xffff_ffff_ffff_ffff ==> fitting(n) is Some && fitting(n)->0 == n,
        n > 0xffff_ffff_ffff_ffff ==> fitting(n) is None,
{
}

/// A number that takes more than 64 bits is not read as one, and a sign of plus makes no
/// difference.
pub proof fn numbers_fit_in_64_bits(n: nat)
    ensures
        n <= u64::MAX ==> u64_of(decimal(n)) == Some(n as u64) && u64_of(seq!['+'] + decimal(n))
            == Some(n as u64),
        n > u64::MAX ==> u64_of(decimal(n)) is None && u64_of(seq!['+'] + decimal(n)) is None,
{
    lemma_numeral_digits(n);
    assert(is_digit(decimal(n)[0]));
    assert(unsigned_digits(decimal(n)) == decimal(n));
    assert((seq!['+'] + decimal(n)).skip(1) =~= decimal(n));
}

// ---------------------------------------------------------------------------
// Sizes that are written
// ---------------------------------------------------------------------------

/// `u` is the size of unit `k`, and the greatest that is not above the number of bytes, where there
/// is one.
pub open spec fn is_in_unit(bytes: nat, k: int, u: int) -> bool {
    &&& (k == 0 && u == 1) || (k == 1 && u == 1024) || (k == 2 && u == 1048576) || (k == 3 && u
        == 1073741824) || (k == 4 && u == 1099511627776) || (k == 5 && u == 1125899906842624)
    &&& k == 0 || bytes >= u
    &&& k == 5 || bytes < 1024 * u
}

/// The name of unit `k` stands at the end of `s`, behind a number of tenths.
pub open spec fn is_written(s: Seq<char>, tenths: nat, k: int) -> bool {
    let name = if k == 0 {
        seq!['B']
    } else if k == 1 {
        seq!['K', 'B']
    } else if k == 2 {
        seq!['M', 'B']
    } else if k == 3 {
        seq!['G', 'B']
    } else if k == 4 {
        seq!['T', 'B']
    } else {
        seq!['P', 'B']
    };
    s == decimal(tenths / 10) + seq!['.', digit_char((tenths % 10) as int), ' '] + name
}

/// `m` is the number `n` rounded to 53 bits: it is `n` itself where that has no more, and else the
/// nearest multiple of the power of two of which `n` has from 2^52 up to 2^53.
pub open spec fn is_rounded(n: nat, m: nat, exponent: nat) -> bool {
    let power = pow2(exponent);
    &&& n < 0x20_0000_0000_0000 ==> m == n
    &&& n >= 0x20_0000_0000_0000 ==> {
        &&& 0x10_0000_0000_0000 * power <= n < 0x20_0000_0000_0000 * power
        &&& m % power == 0
        &&& 2 * (m - n) <= power
        &&& 2 * (n - m) <= power
    }
}

proof fn lemma_spacing(n: nat) -> (exponent: nat)
    ensures
        double_spacing(n) > 0,
        double_spacing(n) == pow2(exponent),
        n >= 0x20_0000_0000_0000 ==> 0x10_0000_0000_0000 * double_spacing(n) <= n
            < 0x20_0000_0000_0000 * double_spacing(n),
    decreases n,
{
    if n >= 0x20_0000_0000_0000 {
        let e = lemma_spacing(n / 2);
        if n / 2 < 0x20_0000_0000_0000 {
            assert(double_spacing(n / 2) == 1);
        }
        lemma_pow2_unfold(e + 1);
        e + 1
    } else {
        lemma2_to64();
        0
    }
}

/// Numbers of more than 53 bits are rounded to so many.
pub proof fn large_numbers_are_rounded(n: nat)
    ensures
        exists|exponent: nat| #[trigger] is_rounded(n, nearest_double(n), exponent),
{
    let u = double_spacing(n);
    let exponent = lemma_spacing(n);
    if n >= 0x20_0000_0000_0000 {
        let q = n as int / u as int;
        let r = n as int % u as int;
        let t = round_half_even(n as int, u as int);
        assert(n == q * u + r && 0 <= r < u && q >= 0) by (nonlinear_arith)
            requires
                q == n as int / u as int,
                r == n as int % u as int,
                u > 0,
                n >= 0,
        ;
        assert((q + 1) * u == q * u + u) by (nonlinear_arith);
        assert(t == q || t == q + 1);
        assert(t * u >= 0) by (nonlinear_arith)
            requires
                t >= 0,
                u >= 0,
        ;
        assert((t * u) % (u as int) == 0) by (nonlinear_arith)
            requires
                u > 0,
        ;
        assert(nearest_double(n) == t * u);
        assert(nearest_double(n) % u == 0);
    } else {
        assert(u == 1);
        assert(nearest_double(n) == n);
    }
    assert(is_rounded(n, nearest_double(n), exponent));
}

/// A size, rounded to 53 bits, is written in the greatest unit of which it has one, to the nearest
/// tenth.
pub proof fn sizes_are_written_to_the_nearest_tenth(size: nat, k: int, u: int)
    requires
        is_in_unit(nearest_double(size), k, u),
    ensures
        ({
            let bytes = nearest_double(size);
            exists|t: nat| #[trigger]
                is_written(size_text(size), t, k) && 2 * (10 * bytes - t * u) <= u && 2 * (t * u
                    - 10 * bytes) <= u
        }),
{
    reveal_with_fuel(kibi_power, 7);
    let bytes = nearest_double(size);
    assert(unit_of(bytes) == k);
    assert(kibi_power(k as nat) == u);
    let t = tenths_of_unit(size);
    let num = 10 * bytes as int;
    assert(2 * (num - t * u) <= u && 2 * (t * u - num) <= u && t >= 0) by {
        let q = num / u;
        let r = num % u;
        assert(num == q * u + r && 0 <= r < u && q >= 0) by (nonlinear_arith)
            requires
                q == num / u,
                r == num % u,
                u > 0,
                num >= 0,
        ;
        assert((q + 1) * u == q * u + u) by (nonlinear_arith);
        assert(t == q || t == q + 1);
    }
    assert(is_written(size_text(size), t, k));
}

/// Numerals are made of the usual digits: each further digit multiplies by ten and adds itself.
pub proof fn decimals_grow_by_digits(n: nat, d: nat)
    requires
        0 < n,
        d < 10,
    ensures
        decimal(n * 10 + d) == decimal(n).push(('0' as int + d) as char),
        decimal(d) == seq![('0' as int + d) as char],
{
}

// ---------------------------------------------------------------------------
// Answers
// ---------------------------------------------------------------------------

/// Results and a done scan are used unless it is answered otherwise: `r` and `rescan` scan again,
/// `q` quits, and `n` quits where there are results. An open scan is gone on with unless it is
/// answered otherwise: `f` and `fresh` scan again, `q` quits. Where nothing was found a scan is
/// made.
pub proof fn answers_are_understood(answer: Seq<char>)
    ensures
        choice_for(Found::Results, answer) is Fresh <==> answer == "r"@ || answer == "rescan"@,
        choice_for(Found::Results, answer) is Quit <==> answer == "q"@ || answer == "n"@,
        choice_for(Found::DoneScan, answer) is Fresh <==> answer == "r"@ || answer == "rescan"@,
        choice_for(Found::DoneScan, answer) is Quit <==> answer == "q"@,
        choice_for(Found::OpenScan, answer) is Fresh <==> answer == "f"@ || answer == "fresh"@,
        choice_for(Found::OpenScan, answer) is Quit <==> answer == "q"@,
        choice_for(Found::Nothing, answer) is Fresh,
{
    reveal_strlit("r");
    reveal_strlit("rescan");
    reveal_strlit("q");
    reveal_strlit("n");
    reveal_strlit("f");
    reveal_strlit("fresh");
    assert("r"@[0] == 'r' && "q"@[0] == 'q' && "n"@[0] == 'n' && "f"@[0] == 'f');
    assert("r"@.len() == 1 && "q"@.len() == 1 && "n"@.len() == 1 && "f"@.len() == 1);
    assert("rescan"@.len() == 6 && "fresh"@.len() == 5);
}

/// What was found is told before it is asked what is to be done with it.
pub proof fn questions_tell_what_was_found(groups: nat, files: nat, summary: Seq<char>)
    ensures
        results_question(groups, files) == "Found cached results ("@ + decimal(groups)
            + " groups, "@ + decimal(files) + " files). [U]se cache / [r]escan / [q]uit: "@,
        scan_question(true, summary) == "Found completed scan ("@ + summary
            + "). [U]se / [r]escan / [q]uit: "@,
        scan_question(false, summary) == "Found incomplete scan ("@ + summary
            + "). [R]esume / [f]resh / [q]uit: "@,
{
}

// ---------------------------------------------------------------------------
// What is shown of a scan
// ---------------------------------------------------------------------------

/// While directories are read it is shown how many are known until the first was read, and then how
/// many of them were read.
pub proof fn the_walk_is_shown(kind: BarKind, p: ScanProgress)
    requires
        p.stage == 0,
    ensures
        p.dirs_done > 0 ==> (update_for(kind, p) matches Some(u) && u.kind is Walking && u.length
            == p.dirs_total && u.position == p.dirs_done && u.prefix == "Walking"@ && u.message
            == "("@ + decimal(p.files_found as nat) + " files)"@),
        p.dirs_done > 0 ==> (update_for(kind, p) matches Some(u) && (u.before is Stays <==> kind
            is Walking) && (u.before is Cleared <==> !(kind is Walking))),
        p.dirs_done == 0 && (kind is Missing || kind is Spinner) ==> (update_for(
            kind,
            p,
        ) matches Some(u) && u.kind is Spinner && u.before is Stays && u.prefix.len() == 0
            && u.message == "Collecting directories... "@ + decimal(p.dirs_total as nat)
            + " found"@),
{
}

/// Of each later stage it is shown how many files are to be hashed and how many were; what was
/// shown of the stage before it is marked as done. At the end there is nothing to be shown.
pub proof fn the_stages_are_shown(kind: BarKind, p: ScanProgress)
    ensures
        p.stage >= 4 <==> update_for(kind, p) is None,
        1 <= p.stage < 4 ==> (update_for(kind, p) matches Some(u) && u.length == p.to_hash
            && u.position == p.hashed && (u.before is Stays <==> u.kind == kind) && (u.before
            is Ticked <==> u.kind != kind)),
        p.stage == 1 ==> (update_for(kind, p) matches Some(u) && u.kind is Heads && u.prefix
            == "Head hash"@ && u.message == "("@ + decimal(p.to_hash as nat) + " candidates)"@),
        p.stage == 2 ==> (update_for(kind, p) matches Some(u) && u.kind is Tails && u.prefix
            == "Tail hash"@ && u.message == "("@ + decimal(p.to_hash as nat) + " candidates)"@),
        p.stage == 3 ==> (update_for(kind, p) matches Some(u) && u.kind is Verifying && u.prefix
            == "Verifying"@ && u.message == "("@ + decimal(p.groups_found as nat) + " groups, "@
            + decimal(p.dupes_found as nat) + " dupes)"@),
{
}

/// At the end it is told how many files were scanned, and how many groups and duplicates found.
pub proof fn the_result_is_told(files: nat, groups: nat, duplicates: nat)
    ensures
        scan_result(files, groups, duplicates) == "Scanned "@ + decimal(files) + " files. Found "@
            + decimal(groups) + " groups ("@ + decimal(duplicates) + " duplicate files)."@,
{
}

/// What is shown of a later stage stays while the first is shown again, until a directory was read.
pub proof fn other_bars_stay_until_a_directory_is_read(kind: BarKind, p: ScanProgress)
    requires
        p.stage == 0,
        p.dirs_done == 0,
        !(kind is Missing),
        !(kind is Spinner),
    ensures
        (update_for(kind, p) matches Some(u) && u.kind == kind && u.before is Stays && u.prefix
            == "Walking"@ && u.length == p.dirs_total && u.position == p.dirs_done && u.message
            == "("@ + decimal(p.files_found as nat) + " files)"@),
{
}


} // verus!
