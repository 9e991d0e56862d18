//! File sizes as text, in both directions.
use vstd::prelude::*;

use crate::text::{
    ascii_uppercase, chars_of, decimal, decimal_reads_back, digit_char, is_ascii_text, is_digit,
    is_white_space, lemma_numeral_digits, parse_u64, push_decimal, to_uppercase, trim, trim_end,
    trim_range, trim_start, trimmed, u64_of, uppercase_of,
};

verus! {

// ---------------------------------------------------------------------------
// Sizes for display
// ---------------------------------------------------------------------------

/// `num / den` rounded to the nearest integer, an exact half to the even neighbour.
pub open spec fn round_half_even(num: int, den: int) -> int {
    let q = num / den;
    let r = num % den;
    if 2 * r < den || (2 * r == den && q % 2 == 0) {
        q
    } else {
        q + 1
    }
}

/// The distance between neighbouring double-precision numbers at `n`: a double holds 53
/// significant bits.
pub open spec fn double_spacing(n: nat) -> nat
    decreases n,
{
    if n < 0x20_0000_0000_0000 {
        1
    } else {
        2 * double_spacing(n / 2)
    }
}

/// The double-precision number nearest to `n`.
pub open spec fn nearest_double(n: nat) -> nat {
    (round_half_even(n as int, double_spacing(n) as int) * double_spacing(n)) as nat
}

/// 1024 to the power `k`.
pub open spec fn kibi_power(k: nat) -> nat
    decreases k,
{
    if k == 0 {
        1
    } else {
        1024 * kibi_power((k - 1) as nat)
    }
}

/// Which unit a size of `m` bytes is given in: the first in which it is below 1024, or the last.
pub open spec fn unit_of(m: nat) -> nat {
    if m < kibi_power(1) {
        0
    } else if m < kibi_power(2) {
        1
    } else if m < kibi_power(3) {
        2
    } else if m < kibi_power(4) {
        3
    } else if m < kibi_power(5) {
        4
    } else {
        5
    }
}

/// The names of the units.
pub open spec fn unit_name(k: nat) -> Seq<char> {
    if k == 0 {
        seq!['B']
    } else if k == 1 {
        seq!['K', 'B']
    } else if k == 2 {
        seq!['M', 'B']
    } else if k == 3 {
        seq!['G', 'B']
    } else if k == 4 {
        seq!['T', 'B']
    } else {
        seq!['P', 'B']
    }
}

/// The size in tenths of its unit.
pub open spec fn tenths_of_unit(bytes: nat) -> nat {
    let m = nearest_double(bytes);
    round_half_even(10 * m as int, kibi_power(unit_of(m)) as int) as nat
}

/// A size as it is displayed: as a double-precision number of its unit, with one decimal.
pub open spec fn size_text(bytes: nat) -> Seq<char> {
    let t = tenths_of_unit(bytes);
    decimal(t / 10) + seq!['.', digit_char((t % 10) as int), ' ']
        + unit_name(unit_of(nearest_double(bytes)))
}

fn rounded_quotient(num: u128, den: u128) -> (r: u128)
    requires
        0 < den <= 0x1_0000_0000_0000_0000,
        num <= 0xa_0000_0000_0000_0000,
    ensures
        r == round_half_even(num as int, den as int),
        r <= num + 1,
{
    let q: u128 = num / den;
    let rem: u128 = num % den;
    assert(q <= num && rem < den) by (nonlinear_arith)
        requires
            den > 0,
            q == num / den,
            rem == num % den,
    ;
    if 2 * rem < den || (2 * rem == den && q % 2 == 0) {
        q
    } else {
        q + 1
    }
}

proof fn lemma_spacing_halves(n: nat, u: nat)
    requires
        u > 0,
        double_spacing(n) == u * double_spacing(n / u),
        n / u >= 0x20_0000_0000_0000,
    ensures
        double_spacing(n) == (2 * u) * double_spacing(n / (2 * u)),
        2 * u <= n,
{
    assert((n / u) / 2 == n / (2 * u)) by {
        vstd::arithmetic::div_mod::lemma_div_denominator(n as int, u as int, 2);
        assert(u * 2 == 2 * u);
    }
    let h = double_spacing(n / (2 * u));
    assert(u * (2 * h) == (2 * u) * h) by (nonlinear_arith);
    assert(2 * u <= n) by (nonlinear_arith)
        requires
            n / u >= 0x20_0000_0000_0000,
            u > 0,
    ;
}

fn to_nearest_double(n: u64) -> (r: u128)
    ensures
        r == nearest_double(n as nat),
        r <= 0x1_0000_0000_0000_0000,
{
    let mut spacing: u64 = 1;
    assert(n as nat / 1 == n);
    while n / spacing >= 0x20_0000_0000_0000
        invariant
            0 < spacing <= 0x800,
            double_spacing(n as nat) == spacing * double_spacing(n as nat / spacing as nat),
            spacing == 1 || spacing == 2 || spacing == 4 || spacing == 8 || spacing == 16
                || spacing == 32 || spacing == 64 || spacing == 128 || spacing == 256
                || spacing == 512 || spacing == 1024 || spacing == 2048,
        decreases 0x1000 - spacing,
    {
        proof {
            lemma_spacing_halves(n as nat, spacing as nat);
        }
        spacing = spacing * 2;
    }
    assert(double_spacing(n as nat / spacing as nat) == 1);
    let q: u128 = rounded_quotient(n as u128, spacing as u128);
    assert(q * spacing <= 0x1_0000_0000_0000_0000) by (nonlinear_arith)
        requires
            q <= n / spacing + 1,
            n / spacing < 0x20_0000_0000_0000,
            0 < spacing <= 0x800,
    ;
    q * (spacing as u128)
}

/// Renders a size with the unit that suits it.
pub fn format_size(bytes: u64) -> (r: String)
    ensures
        r@ == size_text(bytes as nat),
{
    let m: u128 = to_nearest_double(bytes);
    assert(kibi_power(5) == 1125899906842624 && kibi_power(4) == 1099511627776 && kibi_power(3)
        == 1073741824 && kibi_power(2) == 1048576 && kibi_power(1) == 1024 && kibi_power(0) == 1)
        by {
        reveal_with_fuel(kibi_power, 6);
    }
    let (scale, unit): (u128, &str) = if m < 1024 {
        (1, "B")
    } else if m < 1048576 {
        (1024, "KB")
    } else if m < 1073741824 {
        (1048576, "MB")
    } else if m < 1099511627776 {
        (1073741824, "GB")
    } else if m < 1125899906842624 {
        (1099511627776, "TB")
    } else {
        (1125899906842624, "PB")
    };
    let t: u128 = rounded_quotient(10 * m, scale);
    assert(t <= 0xffff_ffff_ffff) by (nonlinear_arith)
        requires
            t <= 10 * m / (scale as int) + 1,
            m < 1024 * scale || (scale == 1125899906842624 && m <= 0x1_0000_0000_0000_0000),
            scale > 0,
    ;
    let tenths: u64 = t as u64;
    let mut r = String::new();
    push_decimal(&mut r, tenths / 10);
    r.push('.');
    r.push((48 + (tenths % 10) as u8) as char);
    r.push(' ');
    r.append(unit);
    proof {
        reveal_strlit("B");
        reveal_strlit("KB");
        reveal_strlit("MB");
        reveal_strlit("GB");
        reveal_strlit("TB");
        reveal_strlit("PB");
        assert(unit@ =~= unit_name(unit_of(m as nat)));
        assert(r@ =~= size_text(bytes as nat));
    }
    r
}

/// Renders a size with the unit that suits it, for reports without colour.
pub fn format_size_simple(bytes: u64) -> (r: String)
    ensures
        r@ == size_text(bytes as nat),
{
    format_size(bytes)
}

// ---------------------------------------------------------------------------
// Sizes from the command line
// ---------------------------------------------------------------------------

/// `s` ends with `end`.
pub open spec fn ends_with(s: Seq<char>, end: Seq<char>) -> bool {
    s.len() >= end.len() && s.skip(s.len() - end.len()) == end
}

/// How many characters the unit at the end of an upper-case size takes, and what it multiplies by.
pub open spec fn unit_suffix(s: Seq<char>) -> (int, nat) {
    if ends_with(s, seq!['G', 'B']) {
        (2, 1073741824)
    } else if ends_with(s, seq!['M', 'B']) {
        (2, 1048576)
    } else if ends_with(s, seq!['K', 'B']) {
        (2, 1024)
    } else if ends_with(s, seq!['B']) {
        (1, 1)
    } else {
        (0, 1)
    }
}

/// The number of bytes that an upper-case size denotes. What is not a number counts as none.
pub open spec fn uppercase_size(s: Seq<char>) -> nat {
    let (len, factor) = unit_suffix(s);
    match u64_of(trim(s.take(s.len() - len))) {
        Some(n) => n as nat * factor,
        None => 0,
    }
}

/// `n`, where it fits in 64 bits.
pub open spec fn fitting(n: nat) -> Option<u64> {
    if n <= u64::MAX {
        Some(n as u64)
    } else {
        None
    }
}

/// The number of bytes that a size denotes, in either letter case.
pub open spec fn size_value(s: Seq<char>) -> nat {
    uppercase_size(uppercase_of(trim(s)))
}

fn ends_in(chars: &Vec<char>, before_last: char) -> (r: bool)
    ensures
        r == ends_with(chars@, seq![before_last, 'B']),
{
    let n: usize = chars.len();
    if n >= 2 && chars[n - 2] == before_last && chars[n - 1] == 'B' {
        assert(chars@.skip(n - 2) =~= seq![before_last, 'B']);
        true
    } else {
        assert(n >= 2 ==> chars@.skip(n - 2)[0] == chars@[n - 2] && chars@.skip(n - 2)[1]
            == chars@[n - 1]);
        false
    }
}

/// Reads a size that is already in upper case: a number, then an optional unit. `None` where the
/// number of bytes does not fit in 64 bits.
pub fn parse_uppercase_size(s: &str) -> (r: Option<u64>)
    ensures
        r == fitting(uppercase_size(s@)),
{
    let chars = chars_of(s);
    let n: usize = chars.len();
    let (len, factor): (usize, u64) = if ends_in(&chars, 'G') {
        (2, 1073741824)
    } else if ends_in(&chars, 'M') {
        (2, 1048576)
    } else if ends_in(&chars, 'K') {
        (2, 1024)
    } else if n >= 1 && chars[n - 1] == 'B' {
        assert(chars@.skip(n - 1) =~= seq!['B']);
        (1, 1)
    } else {
        assert(n >= 1 ==> chars@.skip(n - 1)[0] == chars@[n - 1]);
        (0, 1)
    };
    assert(unit_suffix(s@) == (len as int, factor as nat));
    let (a, b) = trim_range(&chars, 0, n - len);
    assert(chars@.subrange(0, n - len) =~= s@.take(n - len));
    match parse_u64(&chars, a, b) {
        Some(v) => v.checked_mul(factor),
        None => Some(0),
    }
}

/// Reads a size such as `1MB`, `500KB` or `1024`.
pub fn parse_size(s: &str) -> (r: u64)
    requires
        size_value(s@) <= u64::MAX,
    ensures
        r == size_value(s@),
        is_ascii_text(trim(s@)) ==> r == uppercase_size(ascii_uppercase(trim(s@))),
{
    let t = trimmed(s);
    let upper = to_uppercase(t.as_str());
    match parse_uppercase_size(upper.as_str()) {
        Some(v) => v,
        None => 0,
    }
}

/// Reads a size such as `1MB`, `500KB` or `1024`. `None` where the number of bytes does not fit
/// in 64 bits.
pub fn parse_size_checked(s: &str) -> (r: Option<u64>)
    ensures
        r == fitting(size_value(s@)),
        is_ascii_text(trim(s@)) ==> r == fitting(uppercase_size(ascii_uppercase(trim(s@)))),
{
    let t = trimmed(s);
    let upper = to_uppercase(t.as_str());
    match parse_uppercase_size(upper.as_str()) {
        Some(_) => Some(parse_size(s)),
        None => None,
    }
}

/// What an upper-case unit multiplies by, where it is one; no unit at all stands for bytes.
pub open spec fn unit_factor(unit: Seq<char>) -> Option<nat> {
    if unit == seq!['G', 'B'] {
        Some(1073741824)
    } else if unit == seq!['M', 'B'] {
        Some(1048576)
    } else if unit == seq!['K', 'B'] {
        Some(1024)
    } else if unit == seq!['B'] || unit.len() == 0 {
        Some(1)
    } else {
        None
    }
}

/// White space alone.
pub open spec fn is_blank(s: Seq<char>) -> bool {
    forall|i: int| 0 <= i < s.len() ==> is_white_space(#[trigger] s[i])
}

proof fn lemma_trim_start(before: Seq<char>, s: Seq<char>)
    requires
        is_blank(before),
        s.len() > 0,
        !is_white_space(s[0]),
    ensures
        trim_start(before + s) == s,
    decreases before.len(),
{
    if before.len() > 0 {
        let rest = before.skip(1);
        assert((before + s)[0] == before[0]);
        assert((before + s).skip(1) =~= rest + s);
        assert forall|i: int| 0 <= i < rest.len() implies is_white_space(#[trigger] rest[i]) by {
            assert(rest[i] == before[i + 1]);
        }
        lemma_trim_start(rest, s);
    } else {
        assert(before + s =~= s);
    }
}

proof fn lemma_trim_end(s: Seq<char>, after: Seq<char>)
    requires
        is_blank(after),
        s.len() > 0,
        !is_white_space(s.last()),
    ensures
        trim_end(s + after) == s,
    decreases after.len(),
{
    if after.len() > 0 {
        let rest = after.drop_last();
        assert((s + after).last() == after[after.len() - 1]);
        assert((s + after).drop_last() =~= s + rest);
        assert forall|i: int| 0 <= i < rest.len() implies is_white_space(#[trigger] rest[i]) by {
            assert(rest[i] == after[i]);
        }
        lemma_trim_end(s, rest);
    } else {
        assert(s + after =~= s);
    }
}

/// Blanks around a text are taken off.
pub proof fn lemma_trimmed_of_blanks(before: Seq<char>, s: Seq<char>, after: Seq<char>)
    requires
        is_blank(before),
        is_blank(after),
        s.len() > 0,
        !is_white_space(s[0]),
        !is_white_space(s.last()),
    ensures
        trim(before + s + after) == s,
{
    assert(before + s + after =~= before + (s + after));
    assert((s + after)[0] == s[0]);
    lemma_trim_start(before, s + after);
    lemma_trim_end(s, after);
}

/// What a size looks like once it is trimmed: a number, perhaps blanks, and a unit.
proof fn lemma_size_in_upper_case(n: u64, between: Seq<char>, unit: Seq<char>)
    requires
        is_blank(between),
        is_ascii_text(between),
        unit_factor(ascii_uppercase(unit)) is Some,
        unit.len() == 0 ==> between.len() == 0,
    ensures
        ({
            let s = decimal(n as nat) + between + unit;
            &&& is_ascii_text(s)
            &&& !is_white_space(s[0])
            &&& !is_white_space(s.last())
            &&& uppercase_size(ascii_uppercase(s)) == n as nat * unit_factor(
                ascii_uppercase(unit),
            )->0
        }),
{
    let number = decimal(n as nat);
    let upper = ascii_uppercase(unit);
    let s = number + between + unit;
    lemma_numeral_digits(n as nat);
    decimal_reads_back(n);
    assert(is_digit(number[0]) && is_digit(number.last()));
    assert forall|i: int| 0 <= i < unit.len() implies (#[trigger] unit[i] as int) < 128 && unit[i]
        as int >= 65 by {
        assert(upper.len() <= 2 && (i == 0 || i == 1));
        assert(upper[i] == 'G' || upper[i] == 'M' || upper[i] == 'K' || upper[i] == 'B');
    }
    let k = (number + between).len() as int;
    assert(s[0] == number[0]);
    assert(s.last() == if unit.len() > 0 {
        unit.last()
    } else {
        number.last()
    });
    let big = ascii_uppercase(s);
    assert forall|i: int| 0 <= i < s.len() implies (#[trigger] s[i] as int) < 128 && (i < k
        ==> big[i] == s[i]) by {
        if i < number.len() {
            assert(is_digit(number[i]));
        } else if i < k {
            assert(s[i] == between[i - number.len()]);
            assert(is_white_space(between[i - number.len()]));
        } else {
            assert(s[i] == unit[i - k]);
        }
    }
    assert(big.skip(k) =~= upper) by {
        assert forall|i: int| 0 <= i < upper.len() implies big.skip(k)[i] == upper[i] by {
            assert(s[k + i] == unit[i]);
        }
    }
    assert(big.take(k) =~= number + between);
    assert(trim(number + between) == number) by {
        lemma_trimmed_of_blanks(seq![], number, between);
        assert(Seq::<char>::empty() + number + between =~= number + between);
    }
    let last = (number + between)[k - 1];
    assert(is_digit(last) || is_white_space(last)) by {
        if between.len() > 0 {
            assert(last == between[between.len() - 1]);
        } else {
            assert(last == number.last());
        }
    }
    assert(big[k - 1] == last);
    assert(upper.len() > 0 ==> big.last() == upper.last());
    assert(big.len() >= 2 ==> big.skip(big.len() - 2)[0] == big[big.len() - 2]);
    assert(big.len() >= 2 ==> big.skip(big.len() - 2)[1] == big.last());
    assert(upper.len() == 2 ==> big.skip(big.len() - 2) =~= upper);
    assert(big.skip(big.len() - 1)[0] == big.last());
    assert(big.skip(big.len() - 1) =~= seq![big.last()]);
    assert(unit_suffix(big) == (upper.len() as int, unit_factor(upper)->0));
}

/// A number with a unit behind it, in either letter case, is read as so many of that unit, also
/// with blanks around and between.
pub proof fn sizes_are_read_with_their_unit(
    n: u64,
    unit: Seq<char>,
    before: Seq<char>,
    between: Seq<char>,
    after: Seq<char>,
)
    requires
        unit_factor(ascii_uppercase(unit)) is Some,
        is_blank(before),
        is_blank(between),
        is_blank(after),
        is_ascii_text(between),
    ensures
        ({
            let s = trim(before + decimal(n as nat) + between + unit + after);
            &&& is_ascii_text(s)
            &&& uppercase_size(ascii_uppercase(s)) == n as nat * unit_factor(
                ascii_uppercase(unit),
            )->0
        }),
{
    let number = decimal(n as nat);
    let all = before + number + between + unit + after;
    if unit.len() == 0 {
        let blanks = between + after;
        lemma_size_in_upper_case(n, seq![], unit);
        assert(number + Seq::<char>::empty() + unit =~= number);
        assert forall|i: int| 0 <= i < blanks.len() implies is_white_space(
            #[trigger] blanks[i],
        ) by {
            if i >= between.len() {
                assert(blanks[i] == after[i - between.len()]);
            } else {
                assert(blanks[i] == between[i]);
            }
        }
        lemma_trimmed_of_blanks(before, number, blanks);
        assert(all =~= before + number + blanks);
    } else {
        let s = number + between + unit;
        lemma_size_in_upper_case(n, between, unit);
        lemma_trimmed_of_blanks(before, s, after);
        assert(all =~= before + s + after);
    }
}

} // verus!
