use std::collections::HashSet;

use xgrep::config::{Layer, LayerSet};
use xgrep::matcher::{CaseMode, Pattern};
use xgrep::reader::cells::{parse_sheet, SheetCell, SheetParseInput};
use xgrep::reader::comments::{comments_path_for, comments_target, parse_comments, rels_path_for};
use xgrep::reader::hidden::detect;
use xgrep::reader::sst::HitSet;
use xgrep::reader::zip_index::parse_sheets;
use xgrep::reader::{comment_selected, first_match_in_skipped, plan_screen, sheet_selected, CellRecord, ReaderOptions, SheetFilter};

fn cell(row: u32, col: u32, value: &str, formula: Option<&str>) -> SheetCell {
    SheetCell { row, col, is_empty: false, value: value.into(), formula: formula.map(|f| f.into()) }
}

#[test]
fn parse_sheet_applies_layers() {
    let cells = vec![
        cell(0, 0, "total", None),
        cell(0, 1, "5", Some("SUM(2,3)")),
        SheetCell { row: 1, col: 0, is_empty: true, value: String::new(), formula: Some("X".into()) },
        cell(1, 1, "", None),
    ];
    let none = HashSet::new();
    let mut input = SheetParseInput {
        sheet_name: "Sheet1",
        cells: &cells,
        layers: LayerSet::defaults(),
        hidden_rows: &none,
        hidden_cols: &none,
        include_hidden: true,
    };
    let out = parse_sheet(&input);
    assert_eq!(out.len(), 2);
    assert_eq!((out[0].cell.as_str(), out[0].layer, out[0].text.as_str()), ("A1", Layer::Display, "total"));
    assert_eq!((out[1].cell.as_str(), out[1].layer, out[1].text.as_str()), ("B1", Layer::Cached, "5"));

    input.layers = LayerSet::defaults().union(LayerSet::formula());
    let out = parse_sheet(&input);
    assert_eq!(out.len(), 3);
    assert_eq!((out[1].layer, out[1].text.as_str()), (Layer::Formula, "SUM(2,3)"));
}

#[test]
fn parse_sheet_drops_hidden_rows_and_cols_only_when_asked() {
    let cells = vec![cell(0, 0, "open", None), cell(1, 0, "hidden-row", None), cell(0, 2, "hidden-col", None)];
    let rows: HashSet<u32> = [1].into_iter().collect();
    let cols: HashSet<u32> = [2].into_iter().collect();
    let input = SheetParseInput {
        sheet_name: "Visible",
        cells: &cells,
        layers: LayerSet::defaults(),
        hidden_rows: &rows,
        hidden_cols: &cols,
        include_hidden: false,
    };
    let texts: Vec<String> = parse_sheet(&input).into_iter().map(|c| c.text).collect();
    assert_eq!(texts, vec!["open".to_string()]);
    let input = SheetParseInput { include_hidden: true, ..input };
    assert_eq!(parse_sheet(&input).len(), 3);
}

#[test]
fn detect_reads_hidden_rows_and_column_ranges() {
    let xml = r#"<worksheet><cols><col min="3" max="4" width="0" hidden="1"/><col min="6" max="6" hidden="0"/></cols>
<sheetData><row r="1"><c r="A1"/></row><row r="2" spans="1:3" hidden="1"><c r="A2"/></row></sheetData></worksheet>"#;
    let (rows, cols) = detect(Some(xml));
    assert_eq!(rows, [1].into_iter().collect::<HashSet<u32>>());
    assert_eq!(cols, [2, 3].into_iter().collect::<HashSet<u32>>());
    let (rows, cols) = detect(None);
    assert!(rows.is_empty() && cols.is_empty());
}

#[test]
fn parse_sheets_resolves_targets_in_workbook_order() {
    let workbook = r#"<workbook><sheets><sheet name="Alpha" sheetId="1" r:id="rId1"/><sheet name="Beta" sheetId="2" r:id="rId2"/><sheet name="Orphan" sheetId="3" r:id="rId9"/></sheets></workbook>"#;
    let rels = r#"<Relationships><Relationship Id="rId2" Type="ws" Target="worksheets/sheet2.xml"/><Relationship Id="rId1" Type="ws" Target="/xl/../worksheets/sheet1.xml"/></Relationships>"#;
    let sheets = parse_sheets(workbook, rels);
    let got: Vec<(String, String)> = sheets.into_iter().map(|s| (s.name, s.xml_path)).collect();
    assert_eq!(
        got,
        vec![
            ("Alpha".to_string(), "xl/xl/../worksheets/sheet1.xml".to_string()),
            ("Beta".to_string(), "xl/worksheets/sheet2.xml".to_string()),
        ]
    );
}

#[test]
fn parse_sheets_accepts_id_before_name() {
    let workbook = r#"<sheets><sheet r:id="rId1" name="Only"/></sheets>"#;
    let rels = r#"<Relationship Id="rId1" Target="worksheets/sheet1.xml"/>"#;
    let sheets = parse_sheets(workbook, rels);
    assert_eq!(sheets.len(), 1);
    assert_eq!(sheets[0].name, "Only");
    assert_eq!(sheets[0].xml_path, "xl/worksheets/sheet1.xml");
}

#[test]
fn comment_paths_follow_the_rels_layout() {
    assert_eq!(rels_path_for("xl/worksheets/sheet1.xml"), "xl/worksheets/_rels/sheet1.xml.rels");
    assert_eq!(rels_path_for("other/sheet1.xml"), "other/sheet1.xml.rels");
    assert_eq!(comments_path_for("../comments1.xml"), "xl/comments1.xml");
    assert_eq!(comments_path_for("comments1.xml"), "xl/worksheets/comments1.xml");
}

#[test]
fn comments_target_takes_the_first_comments_relationship() {
    let rels = r#"<Relationships>
<Relationship Id="rId1" Target="../drawings/vmlDrawing1.vml" Type="vml"/>
<Relationship Id="rId2" Target="../comments1.xml" Type="comments"/>
<Relationship Id="rId3" Target="../comments2.xml" Type="comments"/>
</Relationships>"#;
    assert_eq!(comments_target(rels), Some("../comments1.xml".to_string()));
    assert_eq!(comments_target("<Relationships/>"), None);
}

#[test]
fn parse_comments_joins_runs_and_skips_empty() {
    let xml = r#"<comments><commentList>
<comment ref="B2" authorId="0"><text><r><t>张三</t></r><r><t xml:space="preserve"> &amp; co</t></r></text></comment>
<comment ref="C3"><text><t></t></text></comment>
<comment authorId="0"><text><t>no ref</t></text></comment>
</commentList></comments>"#;
    let got = parse_comments("汇总", xml);
    assert_eq!(got, vec![("汇总".to_string(), "B2".to_string(), "张三 & co".to_string())]);
}

#[test]
fn sheet_filter_and_visibility_select_sheets() {
    let mut opts = ReaderOptions::default();
    assert!(sheet_selected(&opts, "Hidden", false));
    opts.include_hidden = false;
    assert!(!sheet_selected(&opts, "Hidden", false));
    opts.sheet_filter = Some(SheetFilter::new("Q*").unwrap());
    assert!(sheet_selected(&opts, "Q1", true));
    assert!(!sheet_selected(&opts, "Sheet1", true));
    let visible = vec!["Q1".to_string()];
    assert!(comment_selected(&opts, "Q1", &visible));
    assert!(!comment_selected(&opts, "Q2", &visible));
    assert!(SheetFilter::new("a[").is_err());
}

#[test]
fn screen_parses_everything_without_a_pattern_or_when_aborted() {
    let p = Pattern::compile("foo", CaseMode::Sensitive, false, false).unwrap();
    let no_pattern = plan_screen(None, false, (0, HitSet::new(0), false));
    assert!(no_pattern.needs_parse(Some(b"<v>bar</v>")));
    let aborted = plan_screen(Some(&p), false, (3, HitSet::new(3), true));
    assert!(aborted.needs_parse(Some(b"<v>bar</v>")));
    let disabled = plan_screen(Some(&p), true, (0, HitSet::new(0), false));
    assert!(disabled.needs_parse(Some(b"<v>bar</v>")));
    let screened = plan_screen(Some(&p), false, (0, HitSet::new(0), false));
    assert!(!screened.needs_parse(Some(b"<v>bar</v>")));
    assert!(screened.needs_parse(Some(b"<v>foo</v>")));
    assert!(screened.needs_parse(None));
}

#[test]
fn screen_is_bypassed_for_a_dense_hit_set() {
    let p = Pattern::compile("foo", CaseMode::Sensitive, false, false).unwrap();
    let mut hs = HitSet::new(10);
    hs.insert(4);
    let dense = plan_screen(Some(&p), false, (10, hs, false));
    assert!(dense.needs_parse(Some(b"<v>bar</v>")));
}

#[test]
fn oracle_check_finds_the_first_matching_cell() {
    let p = Pattern::compile("foo", CaseMode::Sensitive, false, false).unwrap();
    let recs = |t: &[&str]| -> Vec<CellRecord> {
        t.iter()
            .map(|x| CellRecord { sheet: "S".into(), cell: "A1".into(), layer: Layer::Display, text: x.to_string() })
            .collect()
    };
    assert_eq!(first_match_in_skipped(&recs(&[]), &p), None);
    assert_eq!(first_match_in_skipped(&recs(&["nothing here"]), &p), None);
    assert_eq!(first_match_in_skipped(&recs(&["a", "contains foo here", "foo"]), &p), Some(1));
}

/// The workbook part and its relationships as a writer stores them for a
/// workbook with sheets "Alpha" and "Beta".
const TINY_WORKBOOK: &str = "<?xml version=\"1.0\" encoding=\"UTF-8\" standalone=\"yes\"?>\n\
    <workbook xmlns=\"http://schemas.openxmlformats.org/spreadsheetml/2006/main\" \
    xmlns:r=\"http://schemas.openxmlformats.org/officeDocument/2006/relationships\">\
    <fileVersion appName=\"xl\" lastEdited=\"4\" lowestEdited=\"4\" rupBuild=\"4505\"/>\
    <workbookPr defaultThemeVersion=\"124226\"/><bookViews><workbookView xWindow=\"240\" yWindow=\"15\" \
    windowWidth=\"16095\" windowHeight=\"9660\"/></bookViews><sheets>\
    <sheet name=\"Alpha\" sheetId=\"1\" r:id=\"rId1\"/><sheet name=\"Beta\" sheetId=\"2\" r:id=\"rId2\"/>\
    </sheets><calcPr calcId=\"124519\" fullCalcOnLoad=\"1\"/></workbook>";

const TINY_RELS: &str = "<?xml version=\"1.0\" encoding=\"UTF-8\" standalone=\"yes\"?>\n\
    <Relationships xmlns=\"http://schemas.openxmlformats.org/package/2006/relationships\">\
    <Relationship Id=\"rId1\" Type=\"http://schemas.openxmlformats.org/officeDocument/2006/relationships/worksheet\" Target=\"worksheets/sheet1.xml\"/>\
    <Relationship Id=\"rId2\" Type=\"http://schemas.openxmlformats.org/officeDocument/2006/relationships/worksheet\" Target=\"worksheets/sheet2.xml\"/>\
    <Relationship Id=\"rId3\" Type=\"http://schemas.openxmlformats.org/officeDocument/2006/relationships/theme\" Target=\"theme/theme1.xml\"/>\
    <Relationship Id=\"rId4\" Type=\"http://schemas.openxmlformats.org/officeDocument/2006/relationships/styles\" Target=\"styles.xml\"/>\
    <Relationship Id=\"rId5\" Type=\"http://schemas.openxmlformats.org/officeDocument/2006/relationships/sharedStrings\" Target=\"sharedStrings.xml\"/>\
    </Relationships>";

#[test]
fn open_lists_sheets_in_workbook_order() {
    let names: Vec<_> = parse_sheets(TINY_WORKBOOK, TINY_RELS).iter().map(|s| s.name.clone()).collect();
    assert_eq!(names, vec!["Alpha", "Beta"]);
}

#[test]
fn open_resolves_rid_to_sheet_xml_path() {
    for s in parse_sheets(TINY_WORKBOOK, TINY_RELS) {
        assert!(s.xml_path.starts_with("xl/worksheets/"));
        assert!(s.xml_path.ends_with(".xml"));
    }
}

fn oracle_rec(text: &str) -> CellRecord {
    CellRecord { sheet: "S".into(), cell: "A1".into(), layer: Layer::Display, text: text.into() }
}

#[test]
fn empty_fallback_is_safe() {
    let p = Pattern::compile("foo", CaseMode::Sensitive, false, false).unwrap();
    assert_eq!(first_match_in_skipped(&[], &p), None);
}

#[test]
fn fallback_without_match_is_safe() {
    let p = Pattern::compile("foo", CaseMode::Sensitive, false, false).unwrap();
    assert_eq!(first_match_in_skipped(&[oracle_rec("nothing here")], &p), None);
}

#[test]
fn sheet_filter_matches_whole_names() {
    assert!(SheetFilter::new("Q*").unwrap().is_match("Q1"));
    assert!(!SheetFilter::new("Q*").unwrap().is_match("Sheet1"));
}
