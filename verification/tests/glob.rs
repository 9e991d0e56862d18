use dupfinder::glob::glob_match;

#[test]
fn test_glob_exact_match() {
    assert!(glob_match("hello", "hello"));
    assert!(!glob_match("hello", "world"));
}

#[test]
fn test_glob_star_wildcard() {
    assert!(glob_match("*", "anything"));
    assert!(glob_match("*.txt", "file.txt"));
    assert!(!glob_match("*.txt", "file.rs"));
    assert!(glob_match("file*", "filename"));
    assert!(glob_match("*name*", "filename.txt"));
}

#[test]
fn test_glob_question_mark() {
    assert!(glob_match("?", "a"));
    assert!(!glob_match("?", "ab"));
    assert!(glob_match("f??e", "file"));
    assert!(!glob_match("f??e", "flame"));
}

#[test]
fn test_glob_combined() {
    assert!(glob_match("*.t?t", "file.txt"));
    assert!(!glob_match("*.t?t", "file.text"));
    assert!(glob_match("@*", "@Recycle"));
    assert!(glob_match(".*", ".git"));
}

#[test]
fn test_glob_empty() {
    assert!(glob_match("", ""));
    assert!(!glob_match("", "a"));
    assert!(glob_match("*", ""));
}

#[test]
fn star_stands_for_a_star_too() {
    assert!(glob_match("*a", "*ba"));
    assert!(glob_match("**", "*"));
    assert!(glob_match("a*b*c", "a1b2b3c"));
    assert!(!glob_match("a*b*c", "a1b2b3"));
    assert!(!glob_match("*?", ""));
}
