use xgrep::cli::{case_mode, context_options, effective_color, join_patterns, layers_for, output_mode, total_matches, worker_threads, MAX_CONTEXT};
use xgrep::config::{ColorChoice, LayerSet, OutputMode};
use xgrep::error::{map_open_error, SearchError};
use xgrep::matcher::CaseMode;
use xgrep::{ContextOptions, FileBlock, FileStats, MatchEvent};

#[test]
fn patterns_join_as_alternation() {
    assert_eq!(join_patterns(&vec![]), None);
    assert_eq!(join_patterns(&vec!["a".into()]), Some("a".to_string()));
    assert_eq!(join_patterns(&vec!["^42$".into(), "^99$".into()]), Some("(?:^42$)|(?:^99$)".to_string()));
    assert_eq!(join_patterns(&vec!["a".into(), "b".into(), "c".into()]), Some("(?:a)|(?:b)|(?:c)".to_string()));
}

#[test]
fn case_flags_pick_the_mode() {
    assert_eq!(case_mode(true, true), CaseMode::Insensitive);
    assert_eq!(case_mode(false, true), CaseMode::Sensitive);
    assert_eq!(case_mode(false, false), CaseMode::Smart);
}

#[test]
fn layer_flags() {
    let l = layers_for(false, false);
    assert!(l.contains(LayerSet::comment()) && !l.contains(LayerSet::formula()));
    let l = layers_for(true, true);
    assert!(!l.contains(LayerSet::comment()) && l.contains(LayerSet::formula()));
    assert!(l.contains(LayerSet::display()) && l.contains(LayerSet::cached()));
}

#[test]
fn output_and_color_choice() {
    assert_eq!(output_mode(true, true, true), OutputMode::Json);
    assert_eq!(output_mode(false, true, true), OutputMode::CountOnly);
    assert_eq!(output_mode(false, false, true), OutputMode::FilesOnly);
    assert_eq!(output_mode(false, false, false), OutputMode::Pretty);
    assert_eq!(effective_color(ColorChoice::Auto, true), ColorChoice::Always);
    assert_eq!(effective_color(ColorChoice::Auto, false), ColorChoice::Never);
    assert_eq!(effective_color(ColorChoice::Never, true), ColorChoice::Never);
}

#[test]
fn context_flags_and_limit() {
    assert_eq!(context_options(None, None, None), Ok(ContextOptions { before: 0, after: 0 }));
    assert_eq!(context_options(None, None, Some(2)), Ok(ContextOptions { before: 2, after: 2 }));
    assert_eq!(context_options(Some(5), None, Some(2)), Ok(ContextOptions { before: 2, after: 5 }));
    assert_eq!(context_options(Some(9999), None, None), Ok(ContextOptions { before: 0, after: 9999 }));
    assert_eq!(
        context_options(Some(100000), None, None),
        Err(format!("context value 100000 exceeds the maximum of {MAX_CONTEXT}"))
    );
}

#[test]
fn worker_thread_count() {
    assert_eq!(worker_threads(0, 8), 8);
    assert_eq!(worker_threads(0, 0), 1);
    assert_eq!(worker_threads(3, 8), 3);
}

#[test]
fn total_matches_counts_match_events() {
    let m = MatchEvent::Match {
        path: "p".into(),
        sheet: "S".into(),
        cell: "A1".into(),
        layer: "display".into(),
        text: "t".into(),
        submatches: vec![],
    };
    let b1 = FileBlock {
        events: vec![
            MatchEvent::FileBegin { path: "p".into() },
            m.clone(),
            MatchEvent::Separator,
            m.clone(),
            MatchEvent::FileEnd { path: "p".into(), stats: FileStats::default() },
        ],
    };
    let b2 = FileBlock { events: vec![m] };
    assert_eq!(total_matches(&vec![b1, b2]), 3);
    assert_eq!(total_matches(&vec![]), 0);
}

#[test]
fn open_errors_mentioning_encryption_are_encrypted() {
    assert!(matches!(map_open_error("File is Password protected".into()), SearchError::Encrypted));
    assert!(matches!(map_open_error("ENCRYPTED package".into()), SearchError::Encrypted));
    match map_open_error("bad zip".into()) {
        SearchError::Parse(m) => assert_eq!(m, "bad zip"),
        other => panic!("{other:?}"),
    }
}

#[test]
fn error_messages() {
    assert_eq!(SearchError::Sheet { sheet: "Q\"1".into(), msg: "boom".into() }.message(), "sheet \"Q\\\"1\": boom");
    assert_eq!(SearchError::Io("denied".into()).message(), "io error: denied");
}
