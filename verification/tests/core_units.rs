use xgrep::cell::{row_from_a1, to_a1};
use xgrep::config::{Layer, LayerSet};
use xgrep::error::ExitCode;
use xgrep::reader::fast_path::should_dense_bypass;
use xgrep::reader::sst::HitSet;
use xgrep::reader::xml_scan::{attr, xml_unescape};
use xgrep::{bytes_to_char_range, FileStats};

#[test]
fn a1_origin() {
    assert_eq!(to_a1(0, 0), "A1");
}

#[test]
fn a1_b3() {
    assert_eq!(to_a1(2, 1), "B3");
}

#[test]
fn a1_column_boundary_z_to_aa() {
    assert_eq!(to_a1(0, 25), "Z1");
    assert_eq!(to_a1(0, 26), "AA1");
    assert_eq!(to_a1(0, 27), "AB1");
}

#[test]
fn a1_double_letter_boundary() {
    assert_eq!(to_a1(0, 701), "ZZ1");
    assert_eq!(to_a1(0, 702), "AAA1");
}

#[test]
fn a1_large_row() {
    assert_eq!(to_a1(1_048_575, 0), "A1048576");
}

#[test]
fn row_from_a1_basic() {
    assert_eq!(row_from_a1("A1").unwrap(), 1);
    assert_eq!(row_from_a1("B3").unwrap(), 3);
    assert_eq!(row_from_a1("Z99").unwrap(), 99);
}

#[test]
fn row_from_a1_multi_letter_column() {
    assert_eq!(row_from_a1("AA1").unwrap(), 1);
    assert_eq!(row_from_a1("ZZ42").unwrap(), 42);
    assert_eq!(row_from_a1("AAA1000").unwrap(), 1000);
}

#[test]
fn row_from_a1_invalid_returns_none() {
    assert!(row_from_a1("").is_none());
    assert!(row_from_a1("A").is_none()); // no digits
    assert!(row_from_a1("123").is_none()); // no letters
    assert!(row_from_a1("A0").is_none()); // row 0 not valid
}

#[test]
fn default_layers_includes_display_cached_comment_not_formula() {
    let l = LayerSet::defaults();
    assert!(l.contains(LayerSet::display()));
    assert!(l.contains(LayerSet::cached()));
    assert!(l.contains(LayerSet::comment()));
    assert!(!l.contains(LayerSet::formula()));
}

#[test]
fn layer_as_str() {
    assert_eq!(Layer::Display.as_str(), "display");
    assert_eq!(Layer::Formula.as_str(), "formula");
}

#[test]
fn exit_code_match() {
    assert_eq!(ExitCode::from_outcome(3, false), ExitCode::Match);
    assert_eq!(ExitCode::Match.as_i32(), 0);
}

#[test]
fn exit_code_no_match() {
    assert_eq!(ExitCode::from_outcome(0, false), ExitCode::NoMatch);
    assert_eq!(ExitCode::NoMatch.as_i32(), 1);
}

#[test]
fn exit_code_fatal_overrides_matches() {
    // rg semantic: even with matches, a fatal early-exit error should be 2.
    assert_eq!(ExitCode::from_outcome(5, true), ExitCode::Fatal);
    assert_eq!(ExitCode::Fatal.as_i32(), 2);
}

#[test]
fn bytes_to_char_ascii() {
    let s = "hello world";
    let sm = bytes_to_char_range(s, 6, 11);
    assert_eq!(sm.start, 6);
    assert_eq!(sm.end, 11);
    assert_eq!(sm.matched.text, "world");
}

#[test]
fn bytes_to_char_cjk() {
    let s = "abc张三def";
    let sm = bytes_to_char_range(s, 3, 9);
    assert_eq!(sm.start, 3);
    assert_eq!(sm.end, 5);
    assert_eq!(sm.matched.text, "张三");
}

#[test]
fn file_stats_default() {
    let s = FileStats::default();
    assert_eq!(s.matches, 0);
    assert_eq!(s.sheets_scanned, 0);
}

#[test]
fn should_dense_bypass_zero_sst_returns_false() {
    assert!(!should_dense_bypass(0, 0));
    assert!(!should_dense_bypass(5, 0)); // shouldn't happen but defensive
}

#[test]
fn should_dense_bypass_low_density_below_abs_returns_false() {
    // 10 hits in 50000 sst -> density 0.0002, count below 30
    assert!(!should_dense_bypass(10, 50_000));
    assert!(!should_dense_bypass(30, 50_000)); // exactly at threshold, NOT strictly above
}

#[test]
fn should_dense_bypass_high_abs_count_returns_true() {
    // 50 hits in 50000 sst -> density 0.001: density alone would not
    // trigger (< 5%) but the absolute count > 30 does.
    assert!(should_dense_bypass(50, 50_000));
    assert!(should_dense_bypass(31, 50_000));
}

#[test]
fn should_dense_bypass_high_density_returns_true() {
    // ~10 hits in ~60 sst -> density ~17%: below 30 but density > 5%.
    assert!(should_dense_bypass(10, 60));
    // 6 / 100 = 6% — above density threshold (5%)
    assert!(should_dense_bypass(6, 100));
}

#[test]
fn should_dense_bypass_at_density_boundary() {
    // 5 / 100 = 5%. Density check uses strict >, so 5% is NOT a bypass.
    assert!(!should_dense_bypass(5, 100));
    // 6 / 100 = 6%, IS a bypass.
    assert!(should_dense_bypass(6, 100));
}

#[test]
fn hitset_basic_insert_contains() {
    let mut hs = HitSet::new(130);
    hs.insert(0);
    hs.insert(64);
    hs.insert(129);
    assert!(hs.contains(0));
    assert!(hs.contains(64));
    assert!(hs.contains(129));
    assert!(!hs.contains(1));
    assert!(!hs.contains(65));
    assert!(!hs.contains(128));
    assert_eq!(hs.count(), 3);
    assert!(!hs.is_empty());
}

#[test]
fn hitset_empty_has_no_bits() {
    let hs = HitSet::new(10);
    assert!(hs.is_empty());
    assert_eq!(hs.count(), 0);
    assert_eq!(hs.iter().into_iter().count(), 0);
}

#[test]
fn xml_unescape_passes_through_plain_ascii() {
    assert_eq!(xml_unescape(b"hello world"), "hello world");
}

#[test]
fn xml_unescape_passes_through_utf8_multibyte() {
    let s = "你好 héllo";
    assert_eq!(xml_unescape(s.as_bytes()), s);
}

#[test]
fn xml_unescape_handles_all_five_known_entities() {
    assert_eq!(xml_unescape(b"&amp;"), "&");
    assert_eq!(xml_unescape(b"&lt;"), "<");
    assert_eq!(xml_unescape(b"&gt;"), ">");
    assert_eq!(xml_unescape(b"&quot;"), "\"");
    assert_eq!(xml_unescape(b"&apos;"), "'");
}

#[test]
fn xml_unescape_mixes_entities_and_plain_text() {
    assert_eq!(xml_unescape(b"a&amp;b&lt;c&gt;d"), "a&b<c>d");
}

#[test]
fn xml_unescape_leaves_unknown_entities_verbatim() {
    // Numeric or non-standard refs are not transformed.
    assert_eq!(xml_unescape(b"&xyz;"), "&xyz;");
    assert_eq!(xml_unescape(b"&#x20;"), "&#x20;");
}

#[test]
fn xml_unescape_handles_bare_ampersand() {
    // A `&` not followed by a recognized entity stays as `&`.
    assert_eq!(xml_unescape(b"a & b"), "a & b");
    assert_eq!(xml_unescape(b"&"), "&");
}

#[test]
fn attr_finds_value_by_name() {
    assert_eq!(attr(b"x=\"1\" y=\"2\"", "x"), Some(&b"1"[..]));
    assert_eq!(attr(b"x=\"1\" y=\"2\"", "y"), Some(&b"2"[..]));
}

#[test]
fn attr_returns_none_when_absent() {
    assert_eq!(attr(b"x=\"1\"", "z"), None);
    assert_eq!(attr(b"", "x"), None);
}

#[test]
fn attr_does_not_match_substring_of_another_attr_name() {
    // "name" is a substring of "name_full"; must not match.
    assert_eq!(attr(b"name_full=\"a\"", "name"), None);
    // But should still find a real "name" attr alongside.
    assert_eq!(attr(b"name_full=\"a\" name=\"b\"", "name"), Some(&b"b"[..]));
}

#[test]
fn attr_handles_leading_whitespace_before_attribute() {
    assert_eq!(attr(b"  x=\"1\"", "x"), Some(&b"1"[..]));
}

#[test]
fn attr_value_may_contain_special_chars_except_double_quote() {
    // Real-world: ref="A1", Target="../sharedStrings.xml"
    assert_eq!(
        attr(b"Target=\"../sharedStrings.xml\"", "Target"),
        Some(&b"../sharedStrings.xml"[..])
    );
}

#[test]
fn attr_returns_none_on_malformed_attribute() {
    // No closing quote — function should not panic.
    assert_eq!(attr(b"x=\"unterminated", "x"), None);
}

#[test]
fn row_from_a1_needs_leading_letters() {
    assert_eq!(row_from_a1("$1"), None);
    assert_eq!(row_from_a1("A$1"), None);
    assert_eq!(row_from_a1("1"), None);
    assert_eq!(row_from_a1("a7"), Some(7));
}
