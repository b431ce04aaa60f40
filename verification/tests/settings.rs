use std::path::PathBuf;

use logd::layout::DockPlacement;
use logd::search::MAX_SEARCH_HISTORY;
use logd::settings::{
    load_filter_placement, load_recent_files, load_search_history, load_theme_name,
    parse_filter_placement, parse_recent_files, parse_search_history, parse_theme_name,
    read_cache_file, remember_file, save_recent_files, save_search_history,
    MAX_RECENT_FILES,
};

#[test]
fn parses_saved_filter_placement() {
    assert_eq!(
        parse_filter_placement("filter_placement=left\n"),
        Some(DockPlacement::Left)
    );
    assert_eq!(
        parse_filter_placement("future_setting=x\nfilter_placement=bottom\n"),
        Some(DockPlacement::Bottom)
    );
}

#[test]
fn ignores_unknown_filter_placement() {
    assert_eq!(parse_filter_placement("filter_placement=center\n"), None);
    assert_eq!(parse_filter_placement("broken\n"), None);
}

#[test]
fn filters_stand_on_the_right_where_nothing_is_stored() {
    assert_eq!(load_filter_placement(None), DockPlacement::Right);
    assert_eq!(
        load_filter_placement(Some("filter_placement=left".to_owned())),
        DockPlacement::Left
    );
}

#[test]
fn recent_files_round_trip_and_are_normalized() {
    let paths: Vec<PathBuf> = parse_recent_files(
        r#"["C:\\logs\\first.log", "", "C:\\logs\\first.log", "D:\\second.log"]"#,
    );
    assert_eq!(
        paths,
        vec![
            PathBuf::from(r"C:\logs\first.log"),
            PathBuf::from(r"D:\second.log")
        ]
    );
    let json = serde_json::to_string(&paths).unwrap();
    assert_eq!(parse_recent_files::<PathBuf>(&json), paths);
}

#[test]
fn invalid_recent_files_json_is_ignored() {
    assert!(parse_recent_files::<PathBuf>("not json").is_empty());
}

#[test]
fn search_history_is_trimmed_deduplicated_and_limited() {
    let queries = (0..=MAX_SEARCH_HISTORY)
        .map(|index| format!("query {index}"))
        .collect::<Vec<_>>();
    let mut json_queries = vec!["  first & second  ".to_string(), String::new()];
    json_queries.push("first & second".to_string());
    json_queries.extend(queries);

    let history = parse_search_history(&serde_json::to_string(&json_queries).unwrap());

    assert_eq!(history.first().map(String::as_str), Some("first & second"));
    assert_eq!(history.len(), MAX_SEARCH_HISTORY);
    assert_eq!(
        history
            .iter()
            .filter(|query| query.as_str() == "first & second")
            .count(),
        1
    );
}

#[test]
fn invalid_search_history_json_is_ignored() {
    assert!(parse_search_history("not json").is_empty());
}

#[test]
fn parses_theme_name_and_migrates_legacy_modes() {
    assert_eq!(
        parse_theme_name("light\n").as_deref(),
        Some("Default Light")
    );
    assert_eq!(parse_theme_name("DARK").as_deref(), Some("Default Dark"));
    assert_eq!(parse_theme_name("Ayu Dark").as_deref(), Some("Ayu Dark"));
    assert_eq!(parse_theme_name(" \n"), None);
}

#[test]
fn the_dark_theme_is_the_default() {
    assert_eq!(load_theme_name(None), "Default Dark");
    assert_eq!(load_theme_name(Some(" ".to_owned())), "Default Dark");
    assert_eq!(load_theme_name(Some("Ayu Light".to_owned())), "Ayu Light");
}

#[test]
fn stored_searches_read_back() {
    let queries = vec!["first & second".to_owned(), "say \"hi\"\n".trim().to_owned()];
    let stored = save_search_history(true, &queries).unwrap();
    assert_eq!(load_search_history(Some(stored)), queries);
    assert!(load_search_history(None).is_empty());
    assert!(save_search_history(false, &queries).is_err());
}

#[test]
fn stored_recent_files_read_back() {
    let paths = vec!["/logs/a b.log".to_owned(), "C:\\x\u{e9}.log".to_owned()];
    let stored = save_recent_files(true, &paths).unwrap();
    let read: Vec<PathBuf> = load_recent_files(Some(stored));
    assert_eq!(read, paths.iter().map(PathBuf::from).collect::<Vec<_>>());
    assert!(load_recent_files::<PathBuf>(None).is_empty());
    assert!(save_recent_files(false, &paths).is_err());
}

#[test]
fn remembered_files_stand_first_and_are_few() {
    let mut recent: Vec<u64> = Vec::new();
    for path in 0..15 {
        recent = remember_file(recent, path);
    }
    assert_eq!(recent.len(), MAX_RECENT_FILES);
    assert_eq!(recent[0], 14);
    recent = remember_file(recent, 10);
    assert_eq!(recent[..3], [10, 14, 13]);
    assert_eq!(recent.len(), MAX_RECENT_FILES);
}

#[test]
fn a_legacy_file_moves_to_the_cache() {
    let present = read_cache_file(Some("new".to_owned()), Some("old".to_owned()));
    assert_eq!(present.0.as_deref(), Some("new"));
    let legacy = read_cache_file(None, Some("old".to_owned()));
    assert_eq!(legacy.0.as_deref(), Some("old"));
    assert_eq!(read_cache_file(None, None).0, None);
}
