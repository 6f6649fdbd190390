use xgrep::config::{Layer, OutputMode};
use xgrep::error::SearchError;
use xgrep::matcher::{CaseMode, Pattern};
use xgrep::printer::{print_block, Printed, Style};
use xgrep::reader::CellRecord;
use xgrep::{search_file, ContextOptions, FileBlock, MatchEvent};

fn rec(sheet: &str, cell: &str, layer: Layer, text: &str) -> CellRecord {
    CellRecord { sheet: sheet.into(), cell: cell.into(), layer, text: text.into() }
}

fn basic_cells() -> Vec<CellRecord> {
    vec![
        rec("Sheet1", "A1", Layer::Display, "name"),
        rec("Sheet1", "B1", Layer::Display, "amount"),
        rec("Sheet1", "A2", Layer::Display, "张三"),
        rec("Sheet1", "B2", Layer::Display, "100"),
        rec("Sheet1", "A3", Layer::Display, "李四"),
        rec("Sheet1", "B3", Layer::Display, "250"),
        rec("汇总", "A1", Layer::Display, "张三应收账款"),
        rec("汇总", "B1", Layer::Cached, "350"),
    ]
}

fn pat(s: &str) -> Pattern {
    Pattern::compile(s, CaseMode::Smart, false, false).unwrap()
}

fn search_basic(p: &str) -> FileBlock {
    search_file("basic.xlsx", Ok(basic_cells()), &pat(p), false, ContextOptions::default())
}

fn render(block: &FileBlock, mode: OutputMode, force: bool) -> String {
    match print_block(block, mode, force) {
        Printed::Segments(segs) => segs.into_iter().map(|s| s.text).collect(),
        Printed::JsonLines => panic!("json is serialized by the application"),
    }
}

#[test]
fn block_is_framed_by_begin_and_end() {
    let block = search_basic("张三");
    assert!(matches!(&block.events[0], MatchEvent::FileBegin { path } if path == "basic.xlsx"));
    match block.events.last().unwrap() {
        MatchEvent::FileEnd { path, stats } => {
            assert_eq!(path, "basic.xlsx");
            assert_eq!(stats.matches, 2);
            assert_eq!(stats.sheets_scanned, 2);
        }
        other => panic!("expected FileEnd, got {other:?}"),
    }
}

#[test]
fn match_events_carry_char_offsets() {
    let block = search_basic("应收");
    let m = block.events.iter().find_map(|e| match e {
        MatchEvent::Match { cell, submatches, .. } => Some((cell.clone(), submatches.clone())),
        _ => None,
    });
    let (cell, subs) = m.unwrap();
    assert_eq!(cell, "A1");
    assert_eq!(subs.len(), 1);
    assert_eq!(subs[0].start, 2);
    assert_eq!(subs[0].end, 4);
    assert_eq!(subs[0].matched.text, "应收");
}

#[test]
fn error_read_gives_error_block() {
    let block = search_file("bad.xlsx", Err(SearchError::Encrypted), &pat("x"), false, ContextOptions::default());
    assert_eq!(block.events.len(), 3);
    match &block.events[1] {
        MatchEvent::Error { message, .. } => assert_eq!(message, "encrypted workbook (not supported)"),
        other => panic!("expected Error, got {other:?}"),
    }
    match &block.events[2] {
        MatchEvent::FileEnd { stats, .. } => {
            assert_eq!(stats.matches, 0);
            assert_eq!(stats.sheets_scanned, 0);
        }
        other => panic!("expected FileEnd, got {other:?}"),
    }
}

#[test]
fn invert_reports_non_matching_cells_without_submatches() {
    let block = search_file("basic.xlsx", Ok(basic_cells()), &pat("张三"), true, ContextOptions::default());
    let matches: Vec<_> = block
        .events
        .iter()
        .filter_map(|e| match e {
            MatchEvent::Match { text, submatches, .. } => Some((text.clone(), submatches.len())),
            _ => None,
        })
        .collect();
    assert_eq!(matches.len(), 6);
    assert!(matches.iter().all(|(_, n)| *n == 0));
    // Each cell is a hit with or without invert, never both.
    let plain = search_basic("张三");
    let count = |b: &FileBlock| match b.events.last().unwrap() {
        MatchEvent::FileEnd { stats, .. } => stats.matches,
        _ => 0,
    };
    assert_eq!(count(&block) + count(&plain), basic_cells().len() as u64);
}

#[test]
fn context_does_not_change_the_end_count() {
    let cells: Vec<CellRecord> =
        (1..=9).map(|r| rec("S", &format!("A{r}"), Layer::Display, if r == 5 { "hit" } else { "x" })).collect();
    let p = pat("hit");
    let plain = search_file("f", Ok(cells.clone()), &p, false, ContextOptions::default());
    let ctx = search_file("f", Ok(cells), &p, false, ContextOptions { before: 2, after: 2 });
    let end = |b: &FileBlock| match b.events.last().unwrap() {
        MatchEvent::FileEnd { stats, .. } => (stats.matches, stats.sheets_scanned),
        _ => (0, 0),
    };
    assert_eq!(end(&plain), end(&ctx));
    assert_eq!(render(&plain, OutputMode::CountOnly, false), "f:1\n");
    assert_eq!(render(&ctx, OutputMode::CountOnly, false), "f:1\n");
}

#[test]
fn context_mode_reports_non_matching_cells_of_a_hit_row_as_context() {
    // A row that mixes a hit and a non-hit cell: only the hit is a Match,
    // its neighbour is a Context event, and `-c` still prints 1.
    let cells = vec![rec("S", "A1", Layer::Display, "hit"), rec("S", "B1", Layer::Display, "x")];
    let block = search_file("f", Ok(cells), &pat("hit"), false, ContextOptions { before: 1, after: 0 });
    let kinds: Vec<(&str, &str)> = block
        .events
        .iter()
        .filter_map(|e| match e {
            MatchEvent::Match { cell, .. } => Some(("M", cell.as_str())),
            MatchEvent::Context { cell, .. } => Some(("C", cell.as_str())),
            _ => None,
        })
        .collect();
    assert_eq!(kinds, vec![("M", "A1"), ("C", "B1")]);
    assert!(matches!(block.events.last().unwrap(), MatchEvent::FileEnd { stats, .. } if stats.matches == 1));
    assert_eq!(render(&block, OutputMode::CountOnly, false), "f:1\n");
}

#[test]
fn pretty_output_prints_one_line_per_hit_in_a_cell() {
    let cells = vec![rec("Sheet1", "B3", Layer::Display, "张三和张三")];
    let block = search_file("f.xlsx", Ok(cells), &pat("张三"), false, ContextOptions::default());
    let segs = match print_block(&block, OutputMode::Pretty, false) {
        Printed::Segments(s) => s,
        Printed::JsonLines => unreachable!(),
    };
    let text: String = segs.iter().map(|s| s.text.as_str()).collect();
    assert_eq!(text, "f.xlsx\n  Sheet1!B3:1: 张三和张三\n  Sheet1!B3:4: 张三和张三\n");
    let hl: Vec<&str> = segs.iter().filter(|s| s.style == Style::Match).map(|s| s.text.as_str()).collect();
    assert_eq!(hl, vec!["张三", "张三"]);
    // Each line highlights its own hit: plain text follows the first, precedes the second.
    let styles: Vec<Style> = segs.iter().map(|s| s.style).collect();
    let first_match = styles.iter().position(|s| *s == Style::Match).unwrap();
    assert_eq!(segs[first_match + 1].text, "和张三");
    let last_match = styles.iter().rposition(|s| *s == Style::Match).unwrap();
    assert_eq!(segs[last_match - 1].text, "张三和");
}

#[test]
fn invert_match_prints_one_unhighlighted_line() {
    let cells = vec![rec("S", "A1", Layer::Display, "plain")];
    let block = search_file("f", Ok(cells), &pat("zzz"), true, ContextOptions::default());
    assert_eq!(render(&block, OutputMode::Pretty, false), "f\n  S!A1:1: plain\n");
}

#[test]
fn pretty_output_groups_under_filename_with_sheet_cell_prefix() {
    let out = render(&search_basic("张三"), OutputMode::Pretty, false);
    assert!(out.contains("basic.xlsx\n"), "path header missing: {out}");
    assert!(out.contains("Sheet1!A2:1: 张三"), "sheet/cell prefix missing: {out}");
}

#[test]
fn count_output_emits_path_count_line() {
    let out = render(&search_basic("张三"), OutputMode::CountOnly, false);
    assert!(out.trim().ends_with(":2"), "expected count of 2, got {out:?}");
}

#[test]
fn files_with_matches_emits_path_only_for_matched_files() {
    let out = render(&search_basic("张三"), OutputMode::FilesOnly, false);
    assert!(out.trim().ends_with("basic.xlsx"));
    assert!(!out.contains("Sheet1"));
    assert_eq!(render(&search_basic("nomatch"), OutputMode::FilesOnly, false), "");
}

#[test]
fn pretty_output_layer_tag_omitted_for_display_unless_forced() {
    let block = search_basic("张三");
    let s = render(&block, OutputMode::Pretty, false);
    assert!(!s.contains("[display]"));
    let s2 = render(&block, OutputMode::Pretty, true);
    assert!(s2.contains("[display]"));
}

#[test]
fn pretty_output_exact_lines_and_styles() {
    let block = search_basic("应收");
    let segs = match print_block(&block, OutputMode::Pretty, false) {
        Printed::Segments(s) => s,
        Printed::JsonLines => unreachable!(),
    };
    let text: String = segs.iter().map(|s| s.text.as_str()).collect();
    assert_eq!(text, "basic.xlsx\n  汇总!A1:3: 张三应收账款\n");
    assert_eq!(segs[0].style, Style::Path);
    let hl: Vec<&str> = segs.iter().filter(|s| s.style == Style::Match).map(|s| s.text.as_str()).collect();
    assert_eq!(hl, vec!["应收"]);
}

#[test]
fn pretty_output_tags_cached_layer_and_context_lines() {
    let cells = vec![
        rec("", "A1", Layer::Display, "row1"),
        rec("", "A2", Layer::Cached, "TARGET"),
        rec("", "A3", Layer::Display, "row3"),
        rec("", "A9", Layer::Display, "TARGET"),
    ];
    let p = Pattern::compile("TARGET", CaseMode::Sensitive, false, false).unwrap();
    let block = search_file("data.csv", Ok(cells), &p, false, ContextOptions { before: 1, after: 1 });
    let out = render(&block, OutputMode::Pretty, false);
    assert_eq!(
        out,
        "data.csv\n  A1: row1 [context]\n  A2:1: TARGET [cached]\n  A3: row3 [context]\n  --\n  A9:1: TARGET\n"
    );
}

#[test]
fn json_mode_is_left_to_the_application() {
    assert!(matches!(print_block(&search_basic("张三"), OutputMode::Json, false), Printed::JsonLines));
}

#[test]
fn pretty_output_is_empty_without_matches() {
    assert_eq!(render(&search_basic("nomatch"), OutputMode::Pretty, false), "");
    assert_eq!(render(&search_basic("nomatch"), OutputMode::CountOnly, false), "");
}

#[test]
fn error_block_prints_nothing_without_matches() {
    let block = search_file("bad.xlsx", Err(SearchError::Parse("zip: bad".into())), &pat("x"), false, ContextOptions::default());
    assert_eq!(render(&block, OutputMode::Pretty, false), "");
    match &block.events[1] {
        MatchEvent::Error { message, .. } => assert_eq!(message, "xlsx parse error: zip: bad"),
        _ => panic!(),
    }
}
