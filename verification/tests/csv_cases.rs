use xgrep::config::Layer;
use xgrep::error::SearchError;
use xgrep::matcher::{CaseMode, Pattern};
use xgrep::reader::csv::read_csv_cells;
use xgrep::{search_file, ContextOptions, MatchEvent};

fn read(bytes: &[u8], ext: &str) -> Vec<xgrep::reader::CellRecord> {
    read_csv_cells(bytes, Some(ext), None).unwrap()
}

#[test]
fn empty_file_returns_empty() {
    let cells = read(b"", "csv");
    assert!(cells.is_empty());
}

#[test]
fn ascii_rows_yield_cells_with_a1_addresses() {
    let cells = read(b"a,b\nc,d\n", "csv");
    assert_eq!(cells.len(), 4);
    assert_eq!(cells[0].cell, "A1");
    assert_eq!(cells[0].text, "a");
    assert_eq!(cells[1].cell, "B1");
    assert_eq!(cells[1].text, "b");
    assert_eq!(cells[2].cell, "A2");
    assert_eq!(cells[2].text, "c");
    assert_eq!(cells[3].cell, "B2");
    assert_eq!(cells[3].text, "d");
    // Sheet always empty for CSV.
    for c in &cells {
        assert_eq!(c.sheet, "");
        assert_eq!(c.layer, Layer::Display);
    }
}

#[test]
fn utf8_bom_is_stripped() {
    let mut bytes = vec![0xEF, 0xBB, 0xBF];
    bytes.extend_from_slice(b"header,value\n");
    let cells = read(&bytes, "csv");
    assert_eq!(cells.len(), 2);
    // The BOM must NOT leak into the first cell's text.
    assert_eq!(cells[0].text, "header");
    assert_eq!(cells[1].text, "value");
}

#[test]
fn quoted_fields_preserve_internal_commas() {
    let cells = read(b"\"foo,bar\",baz\n", "csv");
    assert_eq!(cells.len(), 2);
    assert_eq!(cells[0].text, "foo,bar");
    assert_eq!(cells[1].text, "baz");
}

#[test]
fn tsv_extension_uses_tab() {
    let cells = read(b"a\tb\nc\td\n", "tsv");
    assert_eq!(cells.len(), 4);
    assert_eq!(cells[0].text, "a");
    assert_eq!(cells[1].text, "b");
}

#[test]
fn gbk_override_decodes_chinese() {
    let utf8 = "张三,李四\n";
    let (gbk_bytes, _enc, had_errors) = encoding_rs::GBK.encode(utf8);
    assert!(!had_errors, "GBK encode of test fixture should succeed");
    let cells = read_csv_cells(&gbk_bytes, Some("csv"), Some("gbk")).unwrap();
    assert_eq!(cells.len(), 2);
    assert_eq!(cells[0].text, "张三");
    assert_eq!(cells[1].text, "李四");
}

fn match_texts(bytes: &[u8], ext: &str, pat: &str) -> Vec<String> {
    let pattern = Pattern::compile(pat, CaseMode::Sensitive, false, false).unwrap();
    let name = format!("data.{ext}");
    let block = search_file(&name, read_csv_cells(bytes, Some(ext), None), &pattern, false, ContextOptions::default());
    block
        .events
        .into_iter()
        .filter_map(|e| match e {
            MatchEvent::Match { text, .. } => Some(text),
            _ => None,
        })
        .collect()
}

#[test]
fn csv_ascii_simple_match() {
    let hits = match_texts(b"alpha,beta\ngamma,delta\n", "csv", "gamma");
    assert_eq!(hits, vec!["gamma".to_string()]);
}

#[test]
fn csv_utf8_bom_match() {
    let mut bytes = vec![0xEF, 0xBB, 0xBF];
    bytes.extend_from_slice(b"header,value\n");
    // Pattern "header" must match the BOM-stripped first cell.
    let hits = match_texts(&bytes, "csv", "header");
    assert_eq!(hits, vec!["header".to_string()]);
}

#[test]
fn csv_quoted_field_with_comma() {
    let hits = match_texts(b"\"foo,bar\",baz\n", "csv", "foo,bar");
    assert_eq!(hits, vec!["foo,bar".to_string()]);
}

#[test]
fn tsv_tab_separator_works() {
    let hits = match_texts(b"one\ttwo\nthree\tfour\n", "tsv", "three");
    assert_eq!(hits, vec!["three".to_string()]);
}

#[test]
fn csv_e_gbk_round_trip() {
    let (gbk_bytes, _enc, _had_errors) = encoding_rs::GBK.encode("错误码,正常\n");
    let pattern = Pattern::compile("错误码", CaseMode::Sensitive, false, false).unwrap();
    let block = search_file(
        "logs.csv",
        read_csv_cells(&gbk_bytes, Some("csv"), Some("gbk")),
        &pattern,
        false,
        ContextOptions::default(),
    );
    let hits: Vec<String> = block
        .events
        .into_iter()
        .filter_map(|e| match e {
            MatchEvent::Match { text, .. } => Some(text),
            _ => None,
        })
        .collect();
    assert_eq!(hits, vec!["错误码".to_string()]);
}

fn search_with_ctx(bytes: &[u8], pat: &str, ctx: ContextOptions) -> Vec<MatchEvent> {
    let pattern = Pattern::compile(pat, CaseMode::Sensitive, false, false).unwrap();
    search_file("a.csv", read_csv_cells(bytes, Some("csv"), None), &pattern, false, ctx).events
}

fn shown_cells(events: &[MatchEvent]) -> Vec<String> {
    events
        .iter()
        .filter_map(|e| match e {
            MatchEvent::Match { cell, .. } => Some(cell.clone()),
            MatchEvent::Context { cell, .. } => Some(cell.clone()),
            _ => None,
        })
        .collect()
}

#[test]
fn a_after_csv() {
    let events = search_with_ctx(b"row1\nTARGET\nrow3\nrow4\nrow5\n", "TARGET", ContextOptions { before: 0, after: 2 });
    assert_eq!(shown_cells(&events), vec!["A2", "A3", "A4"]);
}

#[test]
fn b_before_csv() {
    let events = search_with_ctx(b"row1\nrow2\nrow3\nTARGET\nrow5\n", "TARGET", ContextOptions { before: 2, after: 0 });
    assert_eq!(shown_cells(&events), vec!["A2", "A3", "A4"]);
}

#[test]
fn c_disjoint_spans_get_separator() {
    let mut data = String::new();
    for i in 1..=20 {
        if i == 5 || i == 15 {
            data.push_str("TARGET\n");
        } else {
            data.push_str(&format!("row{i}\n"));
        }
    }
    let events = search_with_ctx(data.as_bytes(), "TARGET", ContextOptions { before: 1, after: 1 });
    let sep_count = events.iter().filter(|e| matches!(e, MatchEvent::Separator)).count();
    assert_eq!(sep_count, 1, "expected one Separator between disjoint spans");
}

#[test]
fn unknown_encoding_is_a_parse_error() {
    match read_csv_cells(b"a,b\n", Some("csv"), Some("definitely-not-an-encoding-xyz")) {
        Err(SearchError::Parse(m)) => assert_eq!(m, "unknown encoding: definitely-not-an-encoding-xyz"),
        other => panic!("expected a parse error, got {other:?}"),
    }
}

#[test]
fn unexpected_extension_is_a_parse_error() {
    match read_csv_cells(b"a,b\n", Some("txt"), None) {
        Err(SearchError::Parse(m)) => assert_eq!(m, "internal: unexpected extension 'txt' routed to csv reader"),
        other => panic!("expected a parse error, got {other:?}"),
    }
    match read_csv_cells(b"a,b\n", None, None) {
        Err(SearchError::Parse(m)) => assert_eq!(m, "file has no extension"),
        other => panic!("expected a parse error, got {other:?}"),
    }
}

#[test]
fn extension_case_is_ignored() {
    let cells = read_csv_cells(b"x\ty\n", Some("TSV"), None).unwrap();
    assert_eq!(cells.len(), 2);
    let cells = read_csv_cells(b"x,y\n", Some("Csv"), None).unwrap();
    assert_eq!(cells[1].cell, "B1");
}

#[test]
fn utf16le_bom_is_detected() {
    let mut bytes = vec![0xFF, 0xFE];
    for u in "名,值\n".encode_utf16() {
        bytes.extend_from_slice(&u.to_le_bytes());
    }
    let cells = read_csv_cells(&bytes, Some("csv"), None).unwrap();
    assert_eq!(cells.len(), 2);
    assert_eq!(cells[0].text, "名");
    assert_eq!(cells[1].text, "值");
}

#[test]
fn empty_fields_are_skipped_but_keep_their_column() {
    let cells = read(b"a,,c\n,\n", "csv");
    assert_eq!(cells.len(), 2);
    assert_eq!(cells[0].cell, "A1");
    assert_eq!(cells[1].cell, "C1");
    assert_eq!(cells[1].text, "c");
}
