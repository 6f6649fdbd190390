use xgrep::matcher::{CaseMode, Pattern};

#[test]
fn smart_case_lowercase_is_insensitive() {
    let p = Pattern::compile("foo", CaseMode::Smart, false, false).unwrap();
    assert!(p.is_match("FOO"));
    assert!(p.is_match("Foo"));
}

#[test]
fn smart_case_with_upper_is_sensitive() {
    let p = Pattern::compile("Foo", CaseMode::Smart, false, false).unwrap();
    assert!(p.is_match("Foo bar"));
    assert!(!p.is_match("foo bar"));
}

#[test]
fn force_insensitive_overrides_uppercase() {
    let p = Pattern::compile("Foo", CaseMode::Insensitive, false, false).unwrap();
    assert!(p.is_match("foo"));
}

#[test]
fn force_sensitive_overrides_smart() {
    let p = Pattern::compile("foo", CaseMode::Sensitive, false, false).unwrap();
    assert!(!p.is_match("FOO"));
}

#[test]
fn fixed_string_escapes_regex_meta() {
    let p = Pattern::compile("a.b", CaseMode::Sensitive, true, false).unwrap();
    assert!(p.is_match("a.b"));
    assert!(!p.is_match("aXb"));
}

#[test]
fn word_regexp_requires_boundary() {
    let p = Pattern::compile("foo", CaseMode::Sensitive, false, true).unwrap();
    assert!(p.is_match("foo bar"));
    assert!(!p.is_match("foobar"));
}

#[test]
fn find_iter_returns_byte_ranges() {
    let p = Pattern::compile("ab", CaseMode::Sensitive, false, false).unwrap();
    let hits: Vec<_> = p.find_iter("abXab").into_iter().collect();
    assert_eq!(hits, vec![(0, 2), (3, 5)]);
}

#[test]
fn invalid_regex_returns_error() {
    assert!(Pattern::compile("a(", CaseMode::Sensitive, false, false).is_err());
}

#[test]
fn raw_keeps_the_unescaped_text() {
    let p = Pattern::compile("a.b", CaseMode::Sensitive, true, true).unwrap();
    assert_eq!(p.raw(), "a.b");
}

#[test]
fn fixed_string_with_all_meta_characters_matches_literally() {
    let p = Pattern::compile("(a+b)*[c]?", CaseMode::Sensitive, true, false).unwrap();
    assert!(p.is_match("x(a+b)*[c]?y"));
    assert!(!p.is_match("aab"));
}

#[test]
fn smart_case_reports_insensitivity() {
    assert!(Pattern::compile("foo", CaseMode::Smart, false, false).unwrap().is_case_insensitive());
    assert!(!Pattern::compile("fOo", CaseMode::Smart, false, false).unwrap().is_case_insensitive());
    assert!(Pattern::compile("FOO", CaseMode::Insensitive, false, false).unwrap().is_case_insensitive());
    assert!(!Pattern::compile("foo", CaseMode::Sensitive, false, false).unwrap().is_case_insensitive());
}

#[test]
fn find_iter_on_multibyte_text_gives_char_boundaries() {
    let p = Pattern::compile("三", CaseMode::Sensitive, false, false).unwrap();
    let hits = p.find_iter("张三李三");
    assert_eq!(hits, vec![(3, 6), (9, 12)]);
}
