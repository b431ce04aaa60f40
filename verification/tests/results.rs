use std::collections::HashSet;
use std::sync::Arc;

use logd::i18n::Language;
use logd::results::{
    build_results, result_kind, results_notice, search_file_match_count, search_line_label,
    search_results_title_summary, search_tree_file_row_count, tree_row, ResultKind, ResultsNotice,
    SearchResultsPanel, TabMatches, TreeRow,
};

fn tab(path: u64, search: Option<&[u64]>, filter: Option<&[u64]>) -> TabMatches {
    TabMatches {
        path,
        full_path: format!("/logs/{path}"),
        search: search.map(|lines| Arc::new(lines.to_vec())),
        filter: filter.map(|lines| Arc::new(lines.to_vec())),
        search_scanning: false,
        filter_scanning: false,
        indexing: false,
    }
}

#[test]
fn collapsed_search_file_keeps_only_its_header_row() {
    assert_eq!(search_tree_file_row_count(1_314, true), 1_315);
    assert_eq!(search_tree_file_row_count(1_314, false), 1);
}

#[test]
fn a_search_comes_before_filters() {
    assert_eq!(result_kind(true, true), ResultKind::Search);
    assert_eq!(result_kind(false, true), ResultKind::Filters);
    assert_eq!(result_kind(false, false), ResultKind::Nothing);
}

#[test]
fn matches_form_a_tree() {
    let tabs = vec![
        tab(1, Some(&[4, 9]), None),
        tab(2, Some(&[]), Some(&[1])),
        tab(3, Some(&[7]), None),
    ];
    let tree = build_results(&tabs, &HashSet::from([1]), ResultKind::Search);
    assert_eq!(tree.files.len(), 2);
    assert_eq!(tree.total_matches, 3);
    assert_eq!(tree.tree_rows, 3);
    assert!(!tree.files[0].expanded && tree.files[1].expanded);
    assert_eq!(tree_row(&tree.files, 0), Some(TreeRow::File { file: 0 }));
    assert_eq!(tree_row(&tree.files, 1), Some(TreeRow::File { file: 1 }));
    assert_eq!(tree_row(&tree.files, 2), Some(TreeRow::Line { file: 1, line: 7 }));
    assert_eq!(tree_row(&tree.files, 3), None);
    let filters = build_results(&tabs, &HashSet::new(), ResultKind::Filters);
    assert_eq!(filters.files.len(), 1);
    assert_eq!(filters.files[0].tab_index, 1);
    assert_eq!(filters.total_matches, 1);
}

#[test]
fn unfinished_files_are_counted() {
    let mut waiting = tab(1, None, None);
    waiting.search_scanning = true;
    let tree = build_results(&vec![waiting], &HashSet::new(), ResultKind::Search);
    assert_eq!(tree.scanning, 1);
    assert_eq!(
        results_notice(ResultKind::Search, tree.total_matches, tree.scanning),
        ResultsNotice::InProgress
    );
    assert_eq!(results_notice(ResultKind::Nothing, 0, 0), ResultsNotice::Prompt);
    assert_eq!(results_notice(ResultKind::Search, 0, 0), ResultsNotice::NoResults);
    assert_eq!(results_notice(ResultKind::Search, 2, 1), ResultsNotice::Tree);
}

#[test]
fn results_are_summed_up_in_words() {
    let many: Vec<u64> = (0..1200).collect();
    let tabs = vec![tab(1, Some(&many), None), tab(2, Some(&[1]), None)];
    assert_eq!(
        search_results_title_summary(&tabs, ResultKind::Search, Language::EnUs, "files"),
        "1,201 matches  |  2 files"
    );
    assert_eq!(
        search_results_title_summary(&tabs, ResultKind::Nothing, Language::EnUs, "files"),
        "0 matches  |  0 files"
    );
    assert_ne!(search_file_match_count(1, Language::EnUs), search_file_match_count(2, Language::EnUs));
    assert_eq!(search_file_match_count(1200, Language::EnUs), "(1,200 matches)");
    assert_eq!(search_line_label(4200, Language::EnUs), "Ln 4,200:");
}

#[test]
fn files_collapse_and_expand() {
    let mut panel = SearchResultsPanel::new();
    panel.toggle_file(3);
    panel.toggle_file(4);
    panel.toggle_file(3);
    assert_eq!(panel.collapsed_files, HashSet::from([4]));
    panel.select_line(4, 10);
    assert_eq!(panel.on_key(true, true, "c"), Some((4, 10)));
    assert_eq!(panel.on_key(true, false, "c"), None);
    assert_eq!(panel.on_key(false, true, "c"), None);
    panel.reset_scroll();
    assert!(panel.collapsed_files.is_empty());
    assert_eq!(panel.on_key(true, true, "c"), None);
    assert!(panel.set_visible(false));
    assert!(!panel.visible());
}
