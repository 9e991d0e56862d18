use dupfinder::path::FilePath;
use dupfinder::prompt::{read_choice, Choice, Found};
use dupfinder::text::{
    char_is_white_space, chars_of, parse_u64, push_decimal, push_hexadecimal, text_contains,
    text_is_before, trimmed, truncate_middle,
};

#[test]
fn chars_in_order() {
    assert_eq!(chars_of("aż"), vec!['a', 'ż']);
}

#[test]
fn test_truncate_middle_short() {
    assert_eq!(truncate_middle("hi.txt", 20), "hi.txt");
}

#[test]
fn test_truncate_middle_exact() {
    assert_eq!(truncate_middle("12345", 5), "12345");
}

#[test]
fn test_truncate_middle_truncates() {
    let result = truncate_middle("long_filename_here.txt", 10);
    assert_eq!(result.chars().count(), 10);
    assert!(result.contains('…'));
    // Preserves start and end
    assert!(result.starts_with("long"));
    assert!(result.ends_with(".txt"));
}

#[test]
fn test_truncate_middle_unicode() {
    let name = "Układ_stron_książki.pdf";
    let result = truncate_middle(name, 12);
    assert_eq!(result.chars().count(), 12);
    assert!(result.contains('…'));
}

#[test]
fn test_truncate_middle_too_small() {
    // max_len < 5 returns original
    assert_eq!(truncate_middle("abcdef", 4), "abcdef");
}

#[test]
fn truncation_is_exact() {
    assert_eq!(truncate_middle("long_filename_here.txt", 10), "long…e.txt");
    assert_eq!(truncate_middle("abcdef", 5), "ab…ef");
    assert_eq!(truncate_middle("", 0), "");
}

#[test]
fn white_space_is_that_of_the_standard_library() {
    for n in 0..=0x10FFFFu32 {
        if let Some(c) = char::from_u32(n) {
            assert_eq!(char_is_white_space(c), c.is_whitespace(), "{n:x}");
        }
    }
}

#[test]
fn blanks_are_trimmed() {
    for s in ["", "  ", " a b ", "\t\u{a0}x\u{2003}\n", "ab"] {
        assert_eq!(trimmed(s), s.trim());
    }
}

#[test]
fn texts_are_found() {
    assert!(text_contains("hello", "ell"));
    assert!(text_contains("hello", ""));
    assert!(text_contains("", ""));
    assert!(text_contains("aab", "ab"));
    assert!(!text_contains("hello", "le"));
    assert!(!text_contains("a", "aa"));
}

#[test]
fn texts_are_ordered_like_strings() {
    let words = ["", "a", "B", "ab", "b", "ż", "z", "a\u{10000}", "a\u{ffff}"];
    for a in words {
        for b in words {
            assert_eq!(text_is_before(a, b), a < b, "{a} {b}");
        }
    }
}

#[test]
fn numbers_are_written_and_read_back() {
    for n in [0u64, 1, 9, 10, 255, 4096, u64::MAX] {
        let mut s = String::new();
        push_decimal(&mut s, n);
        assert_eq!(s, n.to_string());
        let chars = chars_of(&s);
        assert_eq!(parse_u64(&chars, 0, chars.len()), Some(n));
        let mut h = String::new();
        push_hexadecimal(&mut h, n);
        assert_eq!(h, format!("{n:x}"));
    }
    for s in ["", "+", "-1", "1 ", "+7", "18446744073709551616", "007", "0x1", "٣"] {
        let chars = chars_of(s);
        assert_eq!(parse_u64(&chars, 0, chars.len()), s.parse::<u64>().ok(), "{s}");
    }
}

#[test]
fn undecodable_names_are_shown_with_replacements() {
    let path = FilePath::from_bytes(&vec![b'/', b'a', 0xff, b'b']);
    assert_eq!(path.to_text(), "/a\u{fffd}b");
    assert_eq!(path.name_text(), "a\u{fffd}b");
    assert_eq!(path.to_bytes(), vec![b'/', b'a', 0xff, b'b']);
}

#[test]
fn answers_are_read_in_any_case() {
    assert_eq!(read_choice(Found::Results, " R\n"), Choice::Fresh);
    assert_eq!(read_choice(Found::Results, "ReScan\n"), Choice::Fresh);
    assert_eq!(read_choice(Found::Results, "N"), Choice::Quit);
    assert_eq!(read_choice(Found::Results, ""), Choice::Use);
    assert_eq!(read_choice(Found::DoneScan, "n"), Choice::Use);
    assert_eq!(read_choice(Found::DoneScan, "Q"), Choice::Quit);
    assert_eq!(read_choice(Found::OpenScan, "FRESH"), Choice::Fresh);
    assert_eq!(read_choice(Found::OpenScan, "r"), Choice::Use);
    assert_eq!(read_choice(Found::Nothing, "q"), Choice::Fresh);
}
