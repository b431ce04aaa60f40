use logd::log_analysis::{
    analyze_source, line_spans, rank_rows, AnalysisLine, AnalysisRow, AnalysisView,
    LogAnalysisPanel,
};

fn line(shown: &str) -> AnalysisLine {
    AnalysisLine {
        visible: true,
        shown: shown.to_owned(),
    }
}

fn row(template: &str, count: u64) -> AnalysisRow {
    AnalysisRow {
        template: template.to_owned(),
        count,
    }
}

#[test]
fn similar_lines_share_a_template() {
    let lines = vec![
        line("session opened for user alice"),
        line("session opened for user bob"),
        line("   "),
        line("disk full"),
        AnalysisLine {
            visible: false,
            shown: "hidden from view".to_owned(),
        },
        line("session opened for user carol"),
    ];
    let (rows, count) = analyze_source(&lines, None).unwrap();
    assert_eq!(count, 4);
    assert_eq!(rows[0].count, 3);
    assert_eq!(rows.iter().map(|row| row.count).sum::<u64>(), 4);
    assert!(rows[0].template.contains("session opened for user"));
    assert!(!rows[0].template.contains("alice"));
}

#[test]
fn broken_filters_stop_the_analysis() {
    assert_eq!(
        analyze_source(&vec![line("x")], Some("bad".to_owned())).unwrap_err(),
        "bad"
    );
}

#[test]
fn frequent_templates_come_first() {
    let rows = rank_rows(vec![row("b", 2), row("z", 5), row("a", 2)]);
    let names = rows.iter().map(|row| row.template.as_str()).collect::<Vec<_>>();
    assert_eq!(names, vec!["z", "a", "b"]);
}

#[test]
fn lines_are_found_by_their_ends() {
    let data = b"\xef\xbb\xbfone\ntwo\r\n\nlast".to_vec();
    let lines = line_spans(&data, 3)
        .into_iter()
        .map(|(from, to)| data[from..to].to_vec())
        .collect::<Vec<_>>();
    assert_eq!(lines[0], b"one");
    assert_eq!(lines.last().unwrap(), b"last");
}

#[test]
fn an_outdated_analysis_is_dropped() {
    let mut panel = LogAnalysisPanel::new();
    assert!(matches!(panel.shown(), AnalysisView::Empty));
    let old = panel.analyze(1, &vec![true, false]);
    let new = panel.analyze(1, &vec![true, true]);
    panel.finish(old, Ok((vec![row("x", 1)], 1)));
    match panel.shown() {
        AnalysisView::Running { filters } => assert!(filters.contains('2')),
        _ => panic!("still running"),
    }
    panel.finish(new, Ok((vec![row("x", 3)], 7)));
    match panel.shown() {
        AnalysisView::Rows { lines, counted, .. } => {
            assert_eq!(lines, vec![("   1".to_owned(), "x  \u{d7}3".to_owned())]);
            assert!(counted.contains('7'));
        }
        _ => panic!("rows"),
    }
    let last = panel.analyze(1, &Vec::new());
    panel.finish(last, Err("bad".to_owned()));
    assert!(matches!(panel.shown(), AnalysisView::Failed { .. }));
    panel.clear();
    assert!(matches!(panel.shown(), AnalysisView::Empty));
}
