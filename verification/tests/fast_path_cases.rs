use xgrep::matcher::{CaseMode, Pattern};
use xgrep::reader::fast_path::{augment, decide, should_dense_bypass, AugmentResult, THRESHOLD};
use xgrep::reader::sst::HitSet;

fn p(s: &str) -> Pattern {
    Pattern::compile(s, CaseMode::Sensitive, false, false).unwrap()
}

#[test]
fn augment_empty_hits_returns_pattern_only() {
    let pat = p("foo");
    let hs = HitSet::new(10);
    let res = augment(&pat, &hs);
    assert!(matches!(res, AugmentResult::PatternOnly(_)));
}

#[test]
fn augment_small_hit_set_returns_augmented() {
    let pat = p("foo");
    let mut hs = HitSet::new(50);
    hs.insert(3);
    hs.insert(17);
    let res = augment(&pat, &hs);
    let r = match res {
        AugmentResult::Augmented(r) => r,
        _ => panic!("expected Augmented"),
    };
    assert!(r.is_match("xx<v>3</v>yy"));
    assert!(r.is_match("xx<v>17</v>yy"));
    assert!(r.is_match("xxfooxx"));
    assert!(!r.is_match("xxqq<v>4</v>"));
}

#[test]
fn augment_above_threshold_returns_too_many_hits() {
    let pat = p("foo");
    let mut hs = HitSet::new(200);
    for i in 0..=THRESHOLD {
        hs.insert(i);
    }
    assert!(matches!(augment(&pat, &hs), AugmentResult::TooManyHits));
}

#[test]
fn augment_strips_anchors() {
    let pat = p("^foo$");
    let hs = HitSet::new(0);
    let res = augment(&pat, &hs);
    let r = match res {
        AugmentResult::PatternOnly(r) => r,
        _ => panic!(),
    };
    // The xml byte stream has "foo" surrounded by tag noise; with anchors
    // stripped, an inner match must still be found.
    assert!(r.is_match("<c><v>foo</v></c>"));
}

#[test]
fn decide_returns_parse_when_xml_byte_matches() {
    let pat = p("foo");
    let hs = HitSet::new(0);
    let aug = augment(&pat, &hs);
    let xml = b"<c><v>foo</v></c>";
    assert!(decide(xml, &aug, true));
}

#[test]
fn decide_returns_skip_when_xml_has_no_match_and_no_sst_hit() {
    let pat = p("foo");
    let hs = HitSet::new(0);
    let aug = augment(&pat, &hs);
    let xml = b"<c><v>bar</v></c>";
    assert!(!decide(xml, &aug, true));
}

#[test]
fn decide_returns_parse_when_sst_only_hit() {
    let pat = p("foo");
    let mut hs = HitSet::new(20);
    hs.insert(7);
    let aug = augment(&pat, &hs);
    // No user pattern in xml, but the sst reference <v>7</v> is there.
    let xml = b"<c t=\"s\"><v>7</v></c>";
    assert!(decide(xml, &aug, false));
}

#[test]
fn decide_returns_parse_when_too_many_hits() {
    let pat = p("foo");
    let mut hs = HitSet::new(200);
    for i in 0..=THRESHOLD {
        hs.insert(i);
    }
    let aug = augment(&pat, &hs);
    assert!(decide(b"any-bytes", &aug, false));
}

#[test]
fn augment_pattern_containing_xml_meta_is_isolated() {
    // A user pattern that contains literal "<v>" must not collide with the
    // injected <v>idx</v>.
    let pat = p("<v>");
    let mut hs = HitSet::new(20);
    hs.insert(1);
    let aug = augment(&pat, &hs);
    let r = match aug {
        AugmentResult::Augmented(r) => r,
        _ => panic!(),
    };
    assert!(r.is_match("foo<v>"));
    assert!(r.is_match("<v>1</v>"));
}

#[test]
fn augment_anchored_multipattern_does_not_skip_matching_sheet() {
    // `-e '^42$' -e '^99$'` joins into `(?:^42$)|(?:^99$)`; the inner
    // anchors survive the strip and would bind to the whole sheet xml, so
    // the screen must not be used.
    let pat = p("(?:^42$)|(?:^99$)");
    let hs = HitSet::new(0);
    let aug = augment(&pat, &hs);
    let xml = br#"<c r="A1"><v>42</v></c>"#;
    assert!(
        decide(xml, &aug, true),
        "decide() must NOT skip a sheet whose literal cell value matches an anchored multi-pattern query"
    );
}

#[test]
fn augment_bypasses_when_literal_dollar_survives() {
    let pat = p("$100");
    let hs = HitSet::new(0);
    assert!(matches!(augment(&pat, &hs), AugmentResult::Bypass));
}

#[test]
fn augment_at_threshold_still_folds_every_index() {
    let pat = p("foo");
    let mut hs = HitSet::new(200);
    for i in 0..THRESHOLD {
        hs.insert(i);
    }
    match augment(&pat, &hs) {
        AugmentResult::Augmented(r) => {
            assert!(r.is_match("<v>0</v>"));
            assert!(r.is_match("<v>99</v>"));
            assert!(!r.is_match("<v>100</v>"));
        }
        _ => panic!("expected Augmented at exactly THRESHOLD hits"),
    }
}

#[test]
fn decide_on_invalid_utf8_scans_empty_text() {
    let pat = p("foo");
    let hs = HitSet::new(0);
    let aug = augment(&pat, &hs);
    assert!(!decide(&[0xff, 0xfe, b'f', b'o', b'o'], &aug, true));
}

#[test]
fn dense_bypass_needs_strictly_more_than_the_density() {
    // 1/20 exactly is not dense; one more hit is.
    assert!(!should_dense_bypass(1, 20));
    assert!(should_dense_bypass(2, 20));
    assert!(should_dense_bypass(usize::MAX, usize::MAX));
}
