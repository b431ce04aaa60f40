use logd::app::{AppAction, LogdApp};
use logd::filters::FilterScope;
use logd::i18n::Language;
use logd::layout::{normalize_hidden_stack_children, PanelNode};
use logd::live_log::{
    advance_capture, safe_file_name, CaptureInput, CaptureState, ExitOutcome, LogBuffers,
};
use logd::menus::{menu_items, MenuCommand, MenuGroup, MenuRow, MenuState, ThemeChoice};
use logd::order::put_in_order;
use logd::regex_table::{extract_source, extract_table, LineChunk, SourceText};
use logd::results::{build_results, tree_row, ResultKind, TabMatches, TreeRow};
use logd::search::{parse_search_expression, search_questions, AcceptedTerms, CatalogEntry};
use logd::settings::normalize_search_history;
use logd::table_panel::csv_field;
use logd::text::{chars_of, text_of, trimmed};
use std::collections::HashSet;
use std::sync::Arc;

fn panel(id: u64, visible: bool) -> PanelNode {
    PanelNode { id, children: Vec::new(), stack_sizes: None, panel: Some(Some(visible)) }
}

/// Reads a quoted field of a table as programs do that take such files.
fn unquoted(field: &str) -> String {
    match field.strip_prefix('"').and_then(|field| field.strip_suffix('"')) {
        Some(inner) => inner.replace("\"\"", "\""),
        None => field.to_owned(),
    }
}

#[test]
fn languages_and_panels_turn_over_and_back() {
    for language in [Language::ZhCn, Language::EnUs] {
        assert_ne!(language.toggle(), language);
        assert_eq!(language.toggle().toggle(), language);
    }
    let mut app =
        LogdApp::new(Language::EnUs, Vec::new(), Vec::new(), FilterScope::CurrentFile);
    let filters = app.filter_panel.visible();
    for _ in 0..2 {
        let action = app.dispatch(MenuCommand::ToggleFilters, FilterScope::CurrentFile);
        assert!(matches!(action, AppAction::LayoutChanged));
        app.dispatch(MenuCommand::ToggleLanguage, FilterScope::CurrentFile);
    }
    assert_eq!(app.filter_panel.visible(), filters);
    assert_eq!(app.language(), Language::EnUs);
    assert!(app.book.filters.is_empty());
}

#[test]
fn an_arrangement_in_order_stays() {
    let stack = PanelNode {
        id: 9,
        children: vec![panel(1, false), panel(2, true), panel(3, false), panel(4, true)],
        stack_sizes: Some(vec!["1".into(), "2".into(), "3".into(), "4".into()]),
        panel: None,
    };
    let (once, changed) = normalize_hidden_stack_children(stack);
    assert!(changed);
    let ids = once.children.iter().map(|child| child.id).collect::<Vec<_>>();
    assert_eq!(ids, vec![2, 4, 1, 3]);
    assert_eq!(once.stack_sizes.as_ref().unwrap(), &vec!["2", "4", "1", "3"]);
    let (twice, _) = normalize_hidden_stack_children(once);
    let ids = twice.children.iter().map(|child| child.id).collect::<Vec<_>>();
    assert_eq!(ids, vec![2, 4, 1, 3]);
    assert_eq!(twice.stack_sizes.unwrap(), vec!["2", "4", "1", "3"]);
}

#[test]
fn a_capture_stops_once_and_stays_stopped() {
    let exited = || CaptureInput::Exited {
        outcome: ExitOutcome::Failure("exit status: 1".to_owned()),
        stderr: "gone".to_owned(),
    };
    let mut state = CaptureState::Reading;
    let mut stops = 0;
    for input in [
        CaptureInput::Line("a".to_owned()),
        CaptureInput::Sent,
        CaptureInput::StopChanged { sender_gone: false, stop: true },
        exited(),
        exited(),
        CaptureInput::Line("b".to_owned()),
    ] {
        let step = advance_capture("serial", state, &input);
        assert_eq!(step.error, None);
        stops += usize::from(step.stopped);
        state = step.state;
    }
    assert_eq!(stops, 1);
    assert_eq!(state, CaptureState::Done);
}

#[test]
fn names_of_device_files_are_safe_and_lines_are_kept() {
    assert_eq!(safe_file_name(&safe_file_name("a:b/c")), safe_file_name("a:b/c"));
    let mut buffers = LogBuffers::new();
    buffers.push_line(1, "one\n");
    buffers.push_line(2, "two\n");
    buffers.flushed(1, false);
    buffers.push_line(1, "more\n");
    let mut pending = buffers.pending();
    pending.sort();
    assert_eq!(pending, vec![(1, "one\nmore\n".to_owned()), (2, "two\n".to_owned())]);
    buffers.flushed(1, true);
    assert_eq!(buffers.pending(), vec![(2, "two\n".to_owned())]);
}

#[test]
fn fields_of_a_table_read_back() {
    for value in ["", "plain", "a,b", "say \"yes\"", "\"\"", "two\nlines\r"] {
        assert_eq!(unquoted(&csv_field(value)), value);
    }
}

#[test]
fn only_what_was_asked_settles_an_expression() {
    let value = "t: 10:00 11:00 & tag:Wifi | pid=7 | plain text";
    let asked = search_questions(value);
    let mut times = asked.times.clone();
    let mut fields = asked.fields.clone();
    let first = parse_search_expression(value, &asked);
    times.push("12:00".to_owned());
    fields.push("level=E".to_owned());
    let second = parse_search_expression(value, &AcceptedTerms { times, fields });
    assert_eq!(first, second);
}

#[test]
fn a_normal_history_stays() {
    let history = vec![" a ".to_owned(), "b".to_owned(), "a".to_owned(), "  ".to_owned()];
    let once = normalize_search_history(&history);
    assert_eq!(once, vec!["a", "b"]);
    assert_eq!(normalize_search_history(&once), once);
    let text = trimmed(&chars_of("  x y "));
    assert_eq!(text_of(&trimmed(&text)), text_of(&text));
}

#[test]
fn sorting_keeps_what_is_in_order() {
    let entry = |rank: usize, score: i64, tab: usize, expression: &str| CatalogEntry {
        rank,
        score,
        tab,
        expression: expression.to_owned(),
    };
    let sorted = put_in_order(vec![
        entry(1, 0, 0, "d"),
        entry(0, 5, 0, "c"),
        entry(0, 5, 0, "b"),
        entry(0, 2, 1, "a"),
    ]);
    let names = sorted.iter().map(|entry| entry.expression.as_str()).collect::<Vec<_>>();
    assert_eq!(names, vec!["a", "b", "c", "d"]);
    let again = put_in_order(sorted);
    let names = again.iter().map(|entry| entry.expression.as_str()).collect::<Vec<_>>();
    assert_eq!(names, vec!["a", "b", "c", "d"]);
}

#[test]
fn every_theme_stands_in_the_menu_once() {
    let state = MenuState {
        language: Language::ZhCn,
        recent: Vec::new(),
        filter_selected: false,
        has_view: false,
        can_export: false,
        encodings: 0,
        active_encoding: None,
        themes: ["a", "b", "c", "d"]
            .iter()
            .enumerate()
            .map(|(index, name)| ThemeChoice { name: name.to_string(), dark: index % 2 == 0 })
            .collect(),
        active_theme: "b".to_owned(),
    };
    let items = menu_items(MenuGroup::View, &state);
    for index in 0..4 {
        let offered = items
            .iter()
            .filter(|item| match item.row {
                MenuRow::Entry { command, .. } => command == MenuCommand::SetTheme(index),
                _ => false,
            })
            .count();
        assert_eq!(offered, 1);
    }
}

#[test]
fn rows_of_a_tree_are_numbered_without_a_gap() {
    let tab = |path: u64, lines: Vec<u64>| TabMatches {
        path,
        full_path: format!("/{path}"),
        search: Some(Arc::new(lines)),
        filter: None,
        search_scanning: false,
        filter_scanning: false,
        indexing: false,
    };
    let tabs = vec![tab(1, vec![3, 8]), tab(2, Vec::new()), tab(3, vec![0])];
    let tree = build_results(&tabs, &HashSet::new(), ResultKind::Search);
    let rows = (0..tree.tree_rows).map(|row| tree_row(&tree.files, row)).collect::<Vec<_>>();
    assert_eq!(
        rows,
        vec![
            Some(TreeRow::File { file: 0 }),
            Some(TreeRow::Line { file: 0, line: 3 }),
            Some(TreeRow::Line { file: 0, line: 8 }),
            Some(TreeRow::File { file: 1 }),
            Some(TreeRow::Line { file: 1, line: 0 }),
        ]
    );
    assert_eq!(tree_row(&tree.files, tree.tree_rows), None);
}

#[test]
fn inferred_columns_are_the_names_of_members_in_order() {
    let array = r#"[{"b":1,"a":"x"},{},7,{"c":null,"a":[1]},{"late":0}]"#;
    let table = extract_table(array, " ", 4);
    assert_eq!(table.columns, vec!["a", "b", "c"]);
    assert_eq!(*table.rows, vec![vec!["x", "1", ""], vec!["[1]", "", ""]]);
    assert_eq!((table.scanned, table.matched, table.error), (4, 2, None));
    let lines = extract_table("{\"z\":true}\n{\"y\":2}", "", 9);
    assert_eq!(lines.columns, vec!["y", "z"]);
    assert_eq!(*lines.rows, vec![vec!["", "true"], vec!["2", ""]]);
}

#[test]
fn matches_of_later_chunks_come_later() {
    let source = SourceText {
        prefix: String::new(),
        document: String::new(),
        chunks: vec![
            LineChunk { start_line: 2, lines: vec![Some("v=3".into()), Some("v=4".into())] },
            LineChunk { start_line: 0, lines: vec![Some("v=1".into()), Some("v=2".into())] },
        ],
        total_lines: 4,
    };
    let table = extract_source(&source, r"v=(?P<v>\d)", None, 3);
    assert_eq!(table.columns, vec!["v"]);
    assert_eq!(*table.rows, vec![vec!["1"], vec!["2"], vec!["3"]]);
    assert_eq!((table.scanned, table.matched), (4, 3));
}
