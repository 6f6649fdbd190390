//! Workbook-level cases. A workbook is described by the parts the reader
//! looks at (the shared-strings xml, each sheet's xml, visibility and the
//! cells the sheet holds); `read_book` runs the library's reading steps on
//! them in the order the application does for an xlsx file.

use std::collections::HashSet;

use xgrep::config::{Layer, LayerSet, OutputMode};
use xgrep::error::ExitCode;
use xgrep::printer::{print_block, Printed};
use xgrep::matcher::{CaseMode, Pattern};
use xgrep::reader::cells::{parse_sheet, SheetCell, SheetParseInput};
use xgrep::reader::comments::parse_comments;
use xgrep::reader::fast_path::THRESHOLD;
use xgrep::reader::hidden::detect;
use xgrep::reader::sst::{parse_with_early_abort, HitSet};
use xgrep::reader::{comment_selected, plan_screen, sheet_has_literal_cells, sheet_selected, wants_fast_path, CellRecord, ReaderOptions};
use xgrep::{search_file, ContextOptions, MatchEvent};

struct Sheet {
    name: String,
    visible: bool,
    xml: String,
    cells: Vec<SheetCell>,
    comments_xml: Option<String>,
}

struct Book {
    sst: Option<String>,
    sheets: Vec<Sheet>,
}

/// An A1 address for 0-indexed (row, col), single-letter columns.
fn addr(row: u32, col: u32) -> String {
    format!("{}{}", (b'A' + col as u8) as char, row + 1)
}

fn xml_escape(s: &str) -> String {
    s.replace('&', "&amp;").replace('<', "&lt;").replace('>', "&gt;")
}

/// Builds a workbook the way a writer lays it out: every string cell goes
/// through the shared-strings table (first occurrence first), numbers and
/// formulas stay in the sheet xml.
struct Writer {
    strings: Vec<String>,
    sheets: Vec<Sheet>,
}

enum Value<'a> {
    Str(&'a str),
    /// A number, as its display text.
    Num(&'a str),
    /// A date: the serial number the sheet xml stores and the text shown.
    Date(&'a str, &'a str),
    /// A formula and its cached result.
    Formula(&'a str, &'a str),
}

impl Writer {
    fn new() -> Self {
        Writer { strings: Vec::new(), sheets: Vec::new() }
    }

    fn index_of(&mut self, s: &str) -> usize {
        match self.strings.iter().position(|x| x == s) {
            Some(i) => i,
            None => {
                self.strings.push(s.to_string());
                self.strings.len() - 1
            }
        }
    }

    fn sheet(&mut self, name: &str, visible: bool, cells: &[(u32, u32, Value)], hidden_rows: &[u32], hidden_cols: &[u32]) {
        let mut sorted: Vec<&(u32, u32, Value)> = cells.iter().collect();
        sorted.sort_by_key(|c| (c.0, c.1));
        let mut xml = String::from(
            "<?xml version=\"1.0\" encoding=\"UTF-8\" standalone=\"yes\"?>\n\
             <worksheet xmlns=\"http://schemas.openxmlformats.org/spreadsheetml/2006/main\">",
        );
        if !hidden_cols.is_empty() {
            xml.push_str("<cols>");
            for c in hidden_cols {
                xml.push_str(&format!("<col min=\"{0}\" max=\"{0}\" width=\"0\" hidden=\"1\" customWidth=\"1\"/>", c + 1));
            }
            xml.push_str("</cols>");
        }
        xml.push_str("<sheetData>");
        let mut sheet_cells = Vec::new();
        let mut current_row: Option<u32> = None;
        for (row, col, value) in sorted {
            if current_row != Some(*row) {
                if current_row.is_some() {
                    xml.push_str("</row>");
                }
                let hidden = if hidden_rows.contains(row) { " hidden=\"1\"" } else { "" };
                xml.push_str(&format!("<row r=\"{}\" spans=\"1:3\"{}>", row + 1, hidden));
                current_row = Some(*row);
            }
            match value {
                Value::Str(s) => {
                    let i = self.index_of(s);
                    xml.push_str(&format!("<c r=\"{}\" t=\"s\"><v>{}</v></c>", addr(*row, *col), i));
                    sheet_cells.push(SheetCell { row: *row, col: *col, is_empty: false, value: s.to_string(), formula: None });
                }
                Value::Num(v) => {
                    xml.push_str(&format!("<c r=\"{}\"><v>{}</v></c>", addr(*row, *col), v));
                    sheet_cells.push(SheetCell { row: *row, col: *col, is_empty: false, value: v.to_string(), formula: None });
                }
                Value::Date(serial, shown) => {
                    xml.push_str(&format!("<c r=\"{}\" s=\"1\"><v>{}</v></c>", addr(*row, *col), serial));
                    sheet_cells.push(SheetCell { row: *row, col: *col, is_empty: false, value: shown.to_string(), formula: None });
                }
                Value::Formula(f, v) => {
                    xml.push_str(&format!("<c r=\"{}\"><f>{}</f><v>{}</v></c>", addr(*row, *col), xml_escape(f), v));
                    sheet_cells.push(SheetCell {
                        row: *row,
                        col: *col,
                        is_empty: false,
                        value: v.to_string(),
                        formula: Some(f.to_string()),
                    });
                }
            }
        }
        if current_row.is_some() {
            xml.push_str("</row>");
        }
        xml.push_str("</sheetData></worksheet>");
        self.sheets.push(Sheet { name: name.to_string(), visible, xml, cells: sheet_cells, comments_xml: None });
    }

    /// Attach a note to a cell of the last sheet.
    fn note(&mut self, row: u32, col: u32, text: &str) {
        let sheet = self.sheets.last_mut().unwrap();
        sheet.comments_xml = Some(format!(
            "<?xml version=\"1.0\" encoding=\"UTF-8\" standalone=\"yes\"?>\n\
             <comments xmlns=\"http://schemas.openxmlformats.org/spreadsheetml/2006/main\">\
             <authors><author></author></authors><commentList>\
             <comment ref=\"{}\" authorId=\"0\"><text><r><rPr><sz val=\"9\"/></rPr><t>{}</t></r></text></comment>\
             </commentList></comments>",
            addr(row, col),
            xml_escape(text)
        ));
    }

    fn save(self) -> Book {
        let sst = if self.strings.is_empty() {
            None
        } else {
            let mut x = format!(
                "<?xml version=\"1.0\" encoding=\"UTF-8\" standalone=\"yes\"?>\n\
                 <sst xmlns=\"http://schemas.openxmlformats.org/spreadsheetml/2006/main\" count=\"{0}\" uniqueCount=\"{0}\">",
                self.strings.len()
            );
            for s in &self.strings {
                x.push_str(&format!("<si><t>{}</t></si>", xml_escape(s)));
            }
            x.push_str("</sst>");
            Some(x)
        };
        Book { sst, sheets: self.sheets }
    }
}

/// The cells of a workbook, read with the library's steps: shared-string
/// scan, screen plan, per-sheet selection and screening, hidden detection
/// and sheet parsing.
fn read_book(book: &Book, opts: &ReaderOptions) -> Vec<CellRecord> {
    let scan = if wants_fast_path(opts) {
        parse_with_early_abort(book.sst.as_deref(), opts.pattern, THRESHOLD)
    } else {
        (0usize, HitSet::new(0), false)
    };
    let screen = plan_screen(opts.pattern, opts.disable_fast_path, scan);
    let mut out = Vec::new();
    for sheet in &book.sheets {
        if !sheet_selected(opts, &sheet.name, sheet.visible) {
            continue;
        }
        if screen.is_active() && !screen.needs_parse(Some(sheet.xml.as_bytes())) {
            continue;
        }
        let (rows, cols) = if opts.include_hidden {
            (HashSet::new(), HashSet::new())
        } else {
            detect(Some(sheet.xml.as_str()))
        };
        let input = SheetParseInput {
            sheet_name: &sheet.name,
            cells: &sheet.cells,
            layers: opts.layers,
            hidden_rows: &rows,
            hidden_cols: &cols,
            include_hidden: opts.include_hidden,
        };
        out.extend(parse_sheet(&input));
    }
    if opts.layers.contains(LayerSet::comment()) {
        let visible: Vec<String> = book.sheets.iter().filter(|s| s.visible).map(|s| s.name.clone()).collect();
        for sheet in &book.sheets {
            if let Some(xml) = &sheet.comments_xml {
                for (name, cell, text) in parse_comments(&sheet.name, xml) {
                    if comment_selected(opts, &name, &visible) {
                        out.push(CellRecord { sheet: name, cell, layer: Layer::Comment, text });
                    }
                }
            }
        }
    }
    out
}

/// The (sheet, cell, layer, text) of the Match events when searching the
/// workbook, sorted.
fn collect_matches(book: &Book, pat: &str, case: CaseMode, disable_fp: bool) -> Vec<(String, String, String, String)> {
    let pattern = Pattern::compile(pat, case, false, false).unwrap();
    let opts = ReaderOptions { pattern: Some(&pattern), disable_fast_path: disable_fp, ..ReaderOptions::default() };
    let cells = read_book(book, &opts);
    let block = search_file("book.xlsx", Ok(cells), &pattern, false, ContextOptions::default());
    let mut out: Vec<_> = block
        .events
        .into_iter()
        .filter_map(|e| match e {
            MatchEvent::Match { sheet, cell, layer, text, .. } => Some((sheet, cell, layer, text)),
            _ => None,
        })
        .collect();
    out.sort();
    out
}

/// The texts of the Match events when searching the workbook, sorted.
fn matches(book: &Book, pat: &str, disable_fp: bool) -> Vec<String> {
    let mut out: Vec<String> =
        collect_matches(book, pat, CaseMode::Sensitive, disable_fp).into_iter().map(|m| m.3).collect();
    out.sort();
    out
}

fn assert_oracle_equivalent(book: &Book, pat: &str, case: CaseMode) {
    let fast = collect_matches(book, pat, case, false);
    let slow = collect_matches(book, pat, case, true);
    assert_eq!(fast, slow, "fast-path divergence on pattern={:?}", pat);
}

fn basic_book() -> Book {
    let mut w = Writer::new();
    w.sheet(
        "Sheet1",
        true,
        &[
            (0, 0, Value::Str("name")),
            (0, 1, Value::Str("amount")),
            (1, 0, Value::Str("张三")),
            (1, 1, Value::Num("100")),
            (2, 0, Value::Str("李四")),
            (2, 1, Value::Num("250")),
        ],
        &[],
        &[],
    );
    w.sheet("汇总", true, &[(0, 0, Value::Str("张三应收账款")), (0, 1, Value::Formula("100+250", "350"))], &[], &[]);
    w.save()
}

fn formula_book() -> Book {
    let mut w = Writer::new();
    w.sheet("Sheet1", true, &[(0, 0, Value::Str("total")), (0, 1, Value::Formula("SUM(2,3)", "5"))], &[], &[]);
    w.save()
}

fn comment_book() -> Book {
    let mut w = Writer::new();
    w.sheet("Sheet1", true, &[(1, 1, Value::Str("data"))], &[], &[]);
    w.note(1, 1, "张三留言: please verify");
    w.save()
}

fn two_sst_pool() -> Book {
    let mut w = Writer::new();
    w.sheet("S", true, &[(0, 0, Value::Str("alpha")), (1, 0, Value::Str("beta")), (2, 0, Value::Str("alpha"))], &[], &[]);
    w.save()
}

#[test]
fn sst_with_zero_matches_skips_correctly() {
    let book = two_sst_pool();
    let r = matches(&book, "ZZZ", false);
    assert!(r.is_empty());
    assert_eq!(r, matches(&book, "ZZZ", true));
}

#[test]
fn pattern_in_sst_finds_all_referencing_cells() {
    let book = two_sst_pool();
    let r = matches(&book, "alpha", false);
    assert_eq!(r, vec!["alpha".to_string(), "alpha".to_string()]);
}

#[test]
fn pattern_containing_xml_meta_does_not_break_augment() {
    let mut w = Writer::new();
    w.sheet("S", true, &[(0, 0, Value::Str("literal <v> in cell")), (1, 0, Value::Str("unrelated"))], &[], &[]);
    let book = w.save();
    let r = matches(&book, "<v>", false);
    assert_eq!(r, vec!["literal <v> in cell".to_string()]);
    assert_eq!(r, matches(&book, "<v>", true));
}

#[test]
fn formula_cached_value_in_sheet_xml_found_via_fast_path_b() {
    let mut w = Writer::new();
    w.sheet("S", true, &[(0, 0, Value::Formula("21+21", "42"))], &[], &[]);
    let book = w.save();
    let r = matches(&book, "42", false);
    assert_eq!(r, vec!["42".to_string()]);
    assert_eq!(r, matches(&book, "42", true));
}

#[test]
fn pattern_at_cell_boundary_still_found() {
    let mut w = Writer::new();
    w.sheet("S", true, &[(0, 0, Value::Str("foo bar baz"))], &[], &[]);
    let book = w.save();
    let r = matches(&book, "foo bar", false);
    assert_eq!(r, vec!["foo bar baz".to_string()]);
}

#[test]
fn anchored_pattern_handled_conservatively() {
    let mut w = Writer::new();
    w.sheet("S", true, &[(0, 0, Value::Str("foo")), (1, 0, Value::Str("foo bar"))], &[], &[]);
    let book = w.save();
    let r = matches(&book, "^foo$", false);
    assert_eq!(r, vec!["foo".to_string()]);
    assert_eq!(r, matches(&book, "^foo$", true));
}

#[test]
fn preskip_sst_falls_back_safely_when_pattern_is_rare() {
    let mut w = Writer::new();
    for sheet_idx in 0..3usize {
        let values: Vec<String> = (0..8_000usize)
            .map(|row| {
                if sheet_idx == 1 && row == 4242 {
                    "RARE-MATCH-MARKER".to_string()
                } else {
                    format!("noise-{sheet_idx}-{row}-padding-to-bulk-up-sst")
                }
            })
            .collect();
        let cells: Vec<(u32, u32, Value)> =
            values.iter().enumerate().map(|(row, v)| (row as u32, 0, Value::Str(v.as_str()))).collect();
        w.sheet(&format!("Sheet{}", sheet_idx + 1), true, &cells, &[], &[]);
    }
    let book = w.save();
    let pat = Pattern::compile("RARE-MATCH-MARKER", CaseMode::Sensitive, true, false).unwrap();

    let opts_on = ReaderOptions { pattern: Some(&pat), ..ReaderOptions::default() };
    let cells_on = read_book(&book, &opts_on);
    let matches_on: Vec<_> = cells_on.iter().filter(|c| c.text.contains("RARE-MATCH-MARKER")).collect();

    let opts_off = ReaderOptions { pattern: Some(&pat), disable_fast_path: true, ..ReaderOptions::default() };
    let cells_off = read_book(&book, &opts_off);
    let matches_off: Vec<_> = cells_off.iter().filter(|c| c.text.contains("RARE-MATCH-MARKER")).collect();

    assert_eq!(matches_on.len(), 1, "fast-path on: expected 1 match, got {}", matches_on.len());
    assert_eq!(matches_off.len(), 1, "fast-path off: expected 1 match, got {}", matches_off.len());
    assert_eq!(matches_on[0].sheet, "Sheet2");
    assert_eq!(matches_off[0].sheet, "Sheet2");
    assert_eq!(matches_on[0].text, matches_off[0].text);
}

fn hidden_book() -> Book {
    let mut w = Writer::new();
    w.sheet(
        "Visible",
        true,
        &[(0, 0, Value::Str("open-marker")), (1, 0, Value::Str("hidden-row-marker")), (0, 2, Value::Str("hidden-col-marker"))],
        &[1],
        &[2],
    );
    w.sheet("HiddenSheet", false, &[(0, 0, Value::Str("hidden-sheet-marker"))], &[], &[]);
    w.save()
}

#[test]
fn hidden_sheet_included_by_default() {
    let cells = read_book(&hidden_book(), &ReaderOptions::default());
    assert!(cells.iter().any(|c| c.text == "hidden-sheet-marker"));
    assert!(cells.iter().any(|c| c.text == "hidden-row-marker"));
    assert!(cells.iter().any(|c| c.text == "hidden-col-marker"));
}

#[test]
fn hidden_sheet_excluded_when_no_hidden() {
    let opts = ReaderOptions { layers: LayerSet::defaults(), include_hidden: false, sheet_filter: None, ..ReaderOptions::default() };
    let cells = read_book(&hidden_book(), &opts);
    assert!(!cells.iter().any(|c| c.text == "hidden-sheet-marker"));
}

#[test]
fn hidden_row_and_col_excluded_when_no_hidden() {
    let opts = ReaderOptions { layers: LayerSet::defaults(), include_hidden: false, sheet_filter: None, ..ReaderOptions::default() };
    let cells = read_book(&hidden_book(), &opts);
    assert!(!cells.iter().any(|c| c.text == "hidden-row-marker"));
    assert!(!cells.iter().any(|c| c.text == "hidden-col-marker"));
    assert!(cells.iter().any(|c| c.text == "open-marker"));
}

#[test]
fn cached_formula_value_is_emitted_as_cached_layer() {
    let cells = read_book(&formula_book(), &ReaderOptions::default());
    let cached: Vec<_> = cells.iter().filter(|c| c.layer == Layer::Cached).collect();
    assert!(cached.iter().any(|c| c.cell == "B1" && c.text == "5"));
    let display_b1: Vec<_> = cells.iter().filter(|c| c.cell == "B1" && c.layer == Layer::Display).collect();
    assert!(display_b1.is_empty(), "formula cell B1 should not also emit a display record");
}

#[test]
fn xlsx_a_within_same_sheet_only() {
    let mut w = Writer::new();
    let s1 = ["row1", "row2", "TARGET", "row4", "row5"];
    let s2 = ["x1", "x2", "TARGET", "x4", "x5"];
    let c1: Vec<(u32, u32, Value)> = s1.iter().enumerate().map(|(r, v)| (r as u32, 0, Value::Str(v))).collect();
    let c2: Vec<(u32, u32, Value)> = s2.iter().enumerate().map(|(r, v)| (r as u32, 0, Value::Str(v))).collect();
    w.sheet("S1", true, &c1, &[], &[]);
    w.sheet("S2", true, &c2, &[], &[]);
    let book = w.save();
    let pattern = Pattern::compile("TARGET", CaseMode::Sensitive, false, false).unwrap();
    let cells = read_book(&book, &ReaderOptions::default());
    let block = search_file("two_sheets.xlsx", Ok(cells), &pattern, false, ContextOptions { before: 0, after: 2 });
    let kinds: Vec<&str> = block
        .events
        .iter()
        .filter_map(|e| match e {
            MatchEvent::Match { .. } => Some("M"),
            MatchEvent::Context { .. } => Some("C"),
            MatchEvent::Separator => Some("S"),
            _ => None,
        })
        .collect();
    assert_eq!(kinds, vec!["M", "C", "C", "S", "M", "C", "C"]);
}

#[test]
fn comment_text_is_emitted_as_comment_layer_on_target_cell() {
    let cells = read_book(&comment_book(), &ReaderOptions::default());
    let comments: Vec<_> = cells.iter().filter(|c| c.layer == Layer::Comment).collect();
    assert!(
        comments.iter().any(|c| c.cell == "B2" && c.text.contains("张三留言")),
        "expected a comment record on B2 containing 张三留言; got {:?}",
        comments,
    );
}

#[test]
fn oracle_basic_fixture_strings_pattern() {
    assert_oracle_equivalent(&basic_book(), "张三", CaseMode::Sensitive);
}

#[test]
fn oracle_basic_fixture_number_pattern() {
    assert_oracle_equivalent(&basic_book(), "100", CaseMode::Sensitive);
}

#[test]
fn oracle_basic_fixture_nonexistent_pattern() {
    assert_oracle_equivalent(&basic_book(), "ZZZ_NEVER_MATCH", CaseMode::Sensitive);
}

#[test]
fn oracle_formula_fixture_cached_value() {
    assert_oracle_equivalent(&formula_book(), "5", CaseMode::Sensitive);
}

#[test]
fn oracle_hidden_fixture_all_markers() {
    let book = hidden_book();
    for marker in &["open-marker", "hidden-row-marker", "hidden-col-marker", "hidden-sheet-marker"] {
        assert_oracle_equivalent(&book, marker, CaseMode::Sensitive);
    }
}

#[test]
fn oracle_comment_fixture() {
    assert_oracle_equivalent(&comment_book(), "张三留言", CaseMode::Sensitive);
}

#[test]
fn oracle_regex_pattern() {
    let mut w = Writer::new();
    w.sheet(
        "S",
        true,
        &[(0, 0, Value::Str("2024-01-15")), (1, 0, Value::Str("no-date-here")), (2, 0, Value::Str("2025-12-31"))],
        &[],
        &[],
    );
    assert_oracle_equivalent(&w.save(), r"\d{4}-\d{2}-\d{2}", CaseMode::Sensitive);
}

#[test]
fn oracle_matches_are_found_in_the_basic_workbook() {
    let found = collect_matches(&basic_book(), "张三", CaseMode::Sensitive, false);
    let places: Vec<(&str, &str)> = found.iter().map(|m| (m.0.as_str(), m.1.as_str())).collect();
    assert_eq!(places, vec![("Sheet1", "A2"), ("汇总", "A1")]);
    let found = collect_matches(&basic_book(), "350", CaseMode::Sensitive, false);
    assert_eq!(found, vec![("汇总".to_string(), "B1".to_string(), "cached".to_string(), "350".to_string())]);
}

#[test]
fn reader_emits_display_values_for_strings_and_numbers() {
    let cells = read_book(&basic_book(), &ReaderOptions::default());
    let got: HashSet<_> = cells.iter().map(|c| (c.sheet.clone(), c.cell.clone(), c.layer, c.text.clone())).collect();
    assert!(got.contains(&("Sheet1".into(), "A1".into(), Layer::Display, "name".into())));
    assert!(got.contains(&("Sheet1".into(), "A2".into(), Layer::Display, "张三".into())));
    assert!(got.contains(&("Sheet1".into(), "B2".into(), Layer::Display, "100".into())));
    assert!(got.contains(&("汇总".into(), "A1".into(), Layer::Display, "张三应收账款".into())));
}

#[test]
fn empty_workbook_no_match_no_error() {
    let mut w = Writer::new();
    w.sheet("Sheet1", true, &[], &[], &[]);
    let book = w.save();
    let pattern = Pattern::compile("anything", CaseMode::Smart, false, false).unwrap();
    let opts = ReaderOptions { pattern: Some(&pattern), ..ReaderOptions::default() };
    let block = search_file("empty.xlsx", Ok(read_book(&book, &opts)), &pattern, false, ContextOptions::default());
    assert!(!block.events.iter().any(|e| matches!(e, MatchEvent::Error { .. })));
    let printed = match print_block(&block, OutputMode::Pretty, false) {
        Printed::Segments(v) => v,
        Printed::JsonLines => panic!("pretty mode prints segments"),
    };
    assert!(printed.is_empty());
    let matches = match block.events.last() {
        Some(MatchEvent::FileEnd { stats, .. }) => stats.matches,
        _ => panic!("a block ends with FileEnd"),
    };
    assert_eq!(ExitCode::from_outcome(matches, false).as_i32(), 1);
}

#[test]
fn date_cell_text_is_found_with_the_fast_path_on() {
    // The sheet xml stores the date as its serial number; the screen must
    // not skip the sheet because "2024" does not occur in its bytes.
    let mut w = Writer::new();
    w.sheet("S", true, &[(0, 0, Value::Str("label")), (0, 1, Value::Date("45439", "2024-05-27"))], &[], &[]);
    let book = w.save();
    let r = matches(&book, "2024", false);
    assert_eq!(r, vec!["2024-05-27".to_string()]);
    assert_eq!(r, matches(&book, "2024", true));
}

#[test]
fn shared_string_sheet_without_hits_is_skipped() {
    let book = two_sst_pool();
    let pattern = Pattern::compile("ZZZ", CaseMode::Sensitive, false, false).unwrap();
    let scan = parse_with_early_abort(book.sst.as_deref(), Some(&pattern), THRESHOLD);
    let screen = plan_screen(Some(&pattern), false, scan);
    assert!(screen.is_active());
    assert!(!screen.needs_parse(Some(book.sheets[0].xml.as_bytes())));
    assert!(!sheet_has_literal_cells(book.sheets[0].xml.as_bytes()));
    assert!(sheet_has_literal_cells(br#"<sheetData><row r="1"><c r="A1" t="b"><v>1</v></c></row></sheetData>"#));
    assert!(sheet_has_literal_cells(br#"<x:sheetData><x:row r="1"><x:c r="A1" t="s"><x:v>0</x:v></x:c></x:row></x:sheetData>"#));
}
