use xgrep::matcher::{CaseMode, Pattern};
use xgrep::reader::sst::{build_hit_set, parse, parse_with_early_abort, parse_xml_with_early_abort, HitSet};

fn p(s: &str) -> Pattern {
    Pattern::compile(s, CaseMode::Sensitive, false, false).unwrap()
}

#[test]
fn build_hit_set_marks_matching_indices() {
    let sst = vec!["foo".into(), "bar".into(), "foobar".into()];
    let hs = build_hit_set(&sst, Some(&p("foo")));
    assert!(hs.contains(0));
    assert!(!hs.contains(1));
    assert!(hs.contains(2));
    assert_eq!(hs.count(), 2);
}

#[test]
fn build_hit_set_no_pattern_yields_empty() {
    let sst = vec!["foo".into(), "bar".into()];
    let hs = build_hit_set(&sst, None);
    assert!(hs.is_empty());
}

#[test]
fn build_hit_set_empty_when_no_matches() {
    let sst = vec!["alpha".into(), "beta".into()];
    let hs = build_hit_set(&sst, Some(&p("zeta")));
    assert!(hs.is_empty());
}

#[test]
fn parse_xml_with_early_abort_no_abort_below_threshold() {
    // 5 matches, threshold 10 -> no abort, full sst returned
    let mut xml = String::from("<sst>");
    for i in 0..5 {
        xml.push_str(&format!("<si><t>hit-{i}</t></si>"));
    }
    for i in 0..5 {
        xml.push_str(&format!("<si><t>miss-{i}</t></si>"));
    }
    xml.push_str("</sst>");
    let (sst_size, hs, aborted) = parse_xml_with_early_abort(&xml, Some(&p("hit")), 10);
    assert!(!aborted);
    assert_eq!(sst_size, 10);
    assert_eq!(hs.count(), 5);
}

#[test]
fn parse_xml_with_early_abort_aborts_at_threshold() {
    // 50 matches, threshold 10 -> aborts after 11 hits (10+1), sst is partial
    let mut xml = String::from("<sst>");
    for i in 0..50 {
        xml.push_str(&format!("<si><t>hit-{i}</t></si>"));
    }
    xml.push_str("</sst>");
    let (sst_size, _hs, aborted) = parse_xml_with_early_abort(&xml, Some(&p("hit")), 10);
    assert!(aborted);
    assert!(sst_size <= 12, "sst_size should be partial, got {}", sst_size);
}

#[test]
fn parse_xml_with_early_abort_no_pattern_never_aborts() {
    let mut xml = String::from("<sst>");
    for i in 0..100 {
        xml.push_str(&format!("<si><t>x-{i}</t></si>"));
    }
    xml.push_str("</sst>");
    let (sst_size, hs, aborted) = parse_xml_with_early_abort(&xml, None, 1);
    assert!(!aborted);
    assert_eq!(sst_size, 100);
    assert!(hs.is_empty());
}

#[test]
fn parse_xml_with_early_abort_empty_xml_returns_empty() {
    let (sst_size, hs, aborted) = parse_xml_with_early_abort("", Some(&p("foo")), 10);
    assert!(!aborted);
    assert_eq!(sst_size, 0);
    assert!(hs.is_empty());
}

#[test]
fn parse_xml_with_early_abort_reuses_text_buf_no_stale_content() {
    let xml = "<sst>\
        <si><t>verylongstringthatwillstayinbuffer</t></si>\
        <si><t>x</t></si>\
        <si><t>verylongstringthatwillstayinbuffer</t></si>\
    </sst>";
    let pat = p("^x$");
    let (sst_size, hs, _aborted) = parse_xml_with_early_abort(xml, Some(&pat), 10);
    assert_eq!(sst_size, 3);
    let hit_indices: Vec<usize> = hs.iter().into_iter().collect();
    assert_eq!(hit_indices, vec![1]);
}

#[test]
fn parse_xml_with_early_abort_handles_xml_entities() {
    let xml = "<sst><si><t>a&amp;b</t></si><si><t>plain</t></si></sst>";
    let pat = p("a&b"); // matches after unescape
    let (sst_size, hs, _aborted) = parse_xml_with_early_abort(xml, Some(&pat), 10);
    assert_eq!(sst_size, 2);
    let hit_indices: Vec<usize> = hs.iter().into_iter().collect();
    assert_eq!(hit_indices, vec![0]);
}

#[test]
fn parse_concatenates_rich_text_runs_and_unescapes() {
    let xml = "<sst count=\"3\"><si><t>alpha</t></si>\
        <si><r><rPr><b/></rPr><t>be</t></r><r><t xml:space=\"preserve\">ta &lt;1&gt;</t></r></si>\
        <si><t>张三</t></si></sst>";
    let sst = parse(Some(xml));
    assert_eq!(sst, vec!["alpha".to_string(), "beta <1>".to_string(), "张三".to_string()]);
}

#[test]
fn parse_without_shared_strings_is_empty() {
    assert!(parse(None).is_empty());
}

#[test]
fn early_abort_without_shared_strings_scans_nothing() {
    let (size, hs, aborted) = parse_with_early_abort(None, Some(&p("x")), 10);
    assert_eq!(size, 0);
    assert_eq!(hs.len(), 0);
    assert!(!aborted);
}

#[test]
fn early_abort_stops_right_after_the_hit_over_the_threshold() {
    // Hits at 0, 2, 4: threshold 1 stops after the second hit (entry 2).
    let xml = "<sst><si><t>a</t></si><si><t>b</t></si><si><t>a</t></si><si><t>a</t></si></sst>";
    let (size, hs, aborted) = parse_xml_with_early_abort(xml, Some(&p("a")), 1);
    assert!(aborted);
    assert_eq!(size, 3);
    assert_eq!(hs.count(), 2);
    assert_eq!(hs.iter(), vec![0, 2]);
}

#[test]
fn early_abort_without_abort_agrees_with_parse_and_build() {
    let xml = "<sst><si><t>foo</t></si><si><t>bar</t></si><si><t>food</t></si></sst>";
    let pat = p("foo");
    let (size, hs, aborted) = parse_xml_with_early_abort(xml, Some(&pat), 10);
    let full = build_hit_set(&parse(Some(xml)), Some(&pat));
    assert!(!aborted);
    assert_eq!(size, full.len());
    assert_eq!(hs.iter(), full.iter());
}

#[test]
fn hitset_insert_out_of_range_is_ignored() {
    let mut hs = HitSet::new(5);
    hs.insert(5);
    hs.insert(1000);
    assert!(hs.is_empty());
    assert!(!hs.contains(5));
    assert_eq!(hs.len(), 5);
}

#[test]
fn hitset_count_does_not_double_count() {
    let mut hs = HitSet::new(70);
    hs.insert(63);
    hs.insert(63);
    hs.insert(64);
    assert_eq!(hs.count(), 2);
    assert_eq!(hs.iter(), vec![63, 64]);
}

/// The shared-strings part of a workbook whose Sheet1 holds "alpha", "beta",
/// "alphabet" and "alpha" in A1:A4: the writer stores each string once.
const SST_DEMO: &str = "<?xml version=\"1.0\" encoding=\"UTF-8\" standalone=\"yes\"?>\n\
    <sst xmlns=\"http://schemas.openxmlformats.org/spreadsheetml/2006/main\" count=\"4\" uniqueCount=\"3\">\
    <si><t>alpha</t></si><si><t>beta</t></si><si><t>alphabet</t></si></sst>";

#[test]
fn parse_returns_unique_strings_in_workbook_order() {
    let sst = parse(Some(SST_DEMO));
    assert!(sst.contains(&"alpha".to_string()));
    assert!(sst.contains(&"beta".to_string()));
    assert!(sst.contains(&"alphabet".to_string()));
    assert_eq!(sst.len(), 3);
}

#[test]
fn hit_set_with_alpha_pattern_marks_alpha_and_alphabet() {
    let sst = parse(Some(SST_DEMO));
    let pat = Pattern::compile("alpha", CaseMode::Sensitive, false, false).unwrap();
    let hs = build_hit_set(&sst, Some(&pat));
    assert_eq!(hs.count(), 2);
}

#[test]
fn hitset_count_agrees_with_iter_and_is_empty() {
    let mut hs = HitSet::new(130);
    assert!(hs.is_empty());
    assert_eq!(hs.count(), 0);
    for i in [0usize, 63, 64, 129, 129, 500] {
        hs.insert(i);
    }
    assert_eq!(hs.count(), 4);
    assert_eq!(hs.iter().len(), hs.count());
    assert!(hs.count() <= hs.len());
    assert!(!hs.is_empty());
}
