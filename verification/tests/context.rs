use xgrep::config::Layer;
use xgrep::reader::CellRecord;
use xgrep::{emit_with_context, ContextOptions, MatchEvent};

fn cell(sheet: &str, cell: &str, text: &str) -> CellRecord {
    CellRecord {
        sheet: sheet.to_string(),
        cell: cell.to_string(),
        layer: Layer::Display,
        text: text.to_string(),
    }
}

fn kinds(events: &[MatchEvent]) -> Vec<&'static str> {
    events
        .iter()
        .filter_map(|e| match e {
            MatchEvent::Match { .. } => Some("M"),
            MatchEvent::Context { .. } => Some("C"),
            MatchEvent::Separator => Some("S"),
            _ => None,
        })
        .collect()
}

fn cells_seen(events: &[MatchEvent]) -> Vec<String> {
    events
        .iter()
        .filter_map(|e| match e {
            MatchEvent::Match { cell, .. } | MatchEvent::Context { cell, .. } => Some(cell.clone()),
            _ => None,
        })
        .collect()
}

#[test]
fn context_expansion_unions_adjacent_spans() {
    // Sheet1 rows 1..=10. Matches at rows 5 and 7. -C 2 -> ctx rows
    // {3..=9}. Expect: ctx 3,4, M 5, ctx 6, M 7, ctx 8,9. NO Separator.
    let cells: Vec<_> = (1..=10).map(|r| cell("Sheet1", &format!("A{r}"), &format!("v{r}"))).collect();
    let matches = vec![("Sheet1".to_string(), 5u32), ("Sheet1".to_string(), 7u32)];
    let events = emit_with_context(&cells, &matches, ContextOptions { before: 2, after: 2 });
    let k = kinds(&events);
    assert!(!k.contains(&"S"), "expected no separator in adjacent union; got {:?}", k);
    assert_eq!(k.iter().filter(|&&x| x == "M").count(), 2);
    assert_eq!(k.iter().filter(|&&x| x == "C").count(), 5);
}

#[test]
fn context_expansion_inserts_separator_between_disjoint() {
    // Matches at rows 5 and 20. -C 1 -> {4,5,6, 19,20,21}. One "--" between.
    let cells: Vec<_> = (1..=25).map(|r| cell("Sheet1", &format!("A{r}"), &format!("v{r}"))).collect();
    let matches = vec![("Sheet1".to_string(), 5u32), ("Sheet1".to_string(), 20u32)];
    let events = emit_with_context(&cells, &matches, ContextOptions { before: 1, after: 1 });
    let k = kinds(&events);
    assert_eq!(k.iter().filter(|&&x| x == "S").count(), 1, "got {:?}", k);
}

#[test]
fn context_clips_at_row_one() {
    // Match at row 2 with -B 5 should clip at row 1 (no A0, no panic).
    let cells: Vec<_> = (1..=5).map(|r| cell("Sheet1", &format!("A{r}"), &format!("v{r}"))).collect();
    let matches = vec![("Sheet1".to_string(), 2u32)];
    let events = emit_with_context(&cells, &matches, ContextOptions { before: 5, after: 0 });
    let cs = cells_seen(&events);
    assert!(cs.contains(&"A1".to_string()));
    assert!(cs.contains(&"A2".to_string()));
    assert!(!cs.iter().any(|c| c == "A0"));
}

#[test]
fn context_cross_sheet_isolation() {
    // Sheet1 + Sheet2 each have a match at row 5, -A 2. Expect:
    // S1: M, C, C, Separator, S2: M, C, C.
    let mut cells = Vec::new();
    for r in 1..=10 {
        cells.push(cell("Sheet1", &format!("A{r}"), &format!("s1-{r}")));
    }
    for r in 1..=10 {
        cells.push(cell("Sheet2", &format!("A{r}"), &format!("s2-{r}")));
    }
    let matches = vec![("Sheet1".to_string(), 5u32), ("Sheet2".to_string(), 5u32)];
    let events = emit_with_context(&cells, &matches, ContextOptions { before: 0, after: 2 });
    let k = kinds(&events);
    assert_eq!(k, vec!["M", "C", "C", "S", "M", "C", "C"]);
}
