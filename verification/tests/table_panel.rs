use std::sync::Arc;

use logd::i18n::Language;
use logd::regex_table::extract_table;
use logd::table_panel::{
    button_tip, csv_field, write_regex_csv, RegexTablePanel, TableButton, TableNotice,
};

#[test]
fn csv_fields_escape_commas_quotes_and_newlines() {
    assert_eq!(csv_field("plain"), "plain");
    assert_eq!(csv_field("a,b"), "\"a,b\"");
    assert_eq!(csv_field("a\"b"), "\"a\"\"b\"");
    assert_eq!(csv_field("a\nb"), "\"a\nb\"");
}

#[test]
fn carriage_returns_are_escaped_and_empty_fields_are_not() {
    assert_eq!(csv_field("a\rb"), "\"a\rb\"");
    assert_eq!(csv_field(""), "");
    assert_eq!(csv_field("\"\""), "\"\"\"\"\"\"");
}

#[test]
fn tables_are_written_line_by_line() {
    let headers = vec!["a".to_owned(), "b,c".to_owned()];
    let rows = Arc::new(vec![vec!["1".to_owned(), "x\"y".to_owned()], Vec::new()]);
    assert_eq!(write_regex_csv(&headers, &rows), "a,\"b,c\"\n1,\"x\"\"y\"\n\n");
}

#[test]
fn pages_keep_their_patterns() {
    let mut panel = RegexTablePanel::new();
    panel.add_page("first".to_owned());
    assert_eq!(panel.page_tabs(), vec![(1, false), (2, true)]);
    assert_eq!(panel.select_page(0, "second".to_owned()).as_deref(), Some("first"));
    assert_eq!(panel.select_page(1, "changed".to_owned()).as_deref(), Some("second"));
    assert_eq!(panel.select_page(7, String::new()), None);
    assert_eq!(panel.remove_active_page(), "changed");
    assert_eq!(panel.remove_active_page(), "");
    assert_eq!(panel.page_tabs(), vec![(3, true)]);
}

#[test]
fn an_outdated_table_is_dropped() {
    let mut panel = RegexTablePanel::new();
    let (id, old) = panel.begin_extraction(r"k=(\d)".to_owned());
    assert!(panel.is_running(r"k=(\d)"));
    assert!(!panel.is_running("other"));
    let (same, new) = panel.begin_extraction(r"k=(\d+)".to_owned());
    assert_eq!(id, same);
    let table = extract_table("k=12", r"k=(\d+)", 10);
    assert!(!panel.finish_extraction(id, old, table.clone()));
    assert!(!panel.finish_extraction(99, new, table.clone()));
    assert!(panel.finish_extraction(id, new, table.clone()));
    assert!(!panel.is_running(r"k=(\d+)"));
    assert_eq!(panel.current_table(r"k=(\d+)"), table);
    assert_eq!(panel.current_table("other").matched, 0);
    assert_eq!(panel.table_key("x"), "regex:x:1");
    panel.clear_extraction();
    assert_eq!(panel.current_table("").matched, 0);
}

#[test]
fn a_shown_table_has_headings_and_can_be_exported() {
    let mut panel = RegexTablePanel::new();
    assert_eq!(panel.export_csv(), None);
    assert!(matches!(panel.render(" ").notice, TableNotice::Prompt));
    let pattern = r"k=(?P<key>\d+) (\w)";
    let (id, generation) = panel.begin_extraction(pattern.to_owned());
    assert!(matches!(panel.render(pattern).notice, TableNotice::Parsing));
    let table = extract_table("k=12 a\nk=3 b", pattern, 10);
    assert!(panel.finish_extraction(id, generation, table));
    let view = panel.render(pattern);
    assert!(matches!(view.notice, TableNotice::Table));
    assert_eq!(view.labels, vec!["Table 1"]);
    assert_eq!(panel.export_headers(), vec!["key", "group_2"]);
    panel.pages[0].headers[0].1 = "Number".to_owned();
    assert_eq!(panel.export_headers(), vec!["Number", "group_2"]);
    assert_eq!(panel.export_csv().as_deref(), Some("regex-table-1.csv"));
    assert_eq!(panel.cell(1, 0).as_deref(), Some("3"));
    assert_eq!(panel.cell(1, 2), None);
    assert_eq!(panel.cell(2, 0), None);
    assert_eq!(panel.on_key(true, true, "c", Some((0, 1))).as_deref(), Some("a"));
    assert_eq!(panel.on_key(true, true, "c", None), None);
    assert_eq!(panel.on_key(true, true, "v", Some((0, 1))), None);
    assert_eq!(panel.on_key(false, true, "c", Some((0, 1))), None);
    assert!(matches!(panel.render("other").notice, TableNotice::NoMatches));
    assert!(panel.set_visible(false));
    assert!(!panel.visible());
}

#[test]
fn showing_a_table_leaves_the_rest_as_it_was() {
    let mut panel = RegexTablePanel::new();
    let (id, generation) = panel.begin_extraction("a(.)".to_owned());
    assert!(panel.finish_extraction(id, generation, extract_table("ab", "a(.)", 10)));
    panel.add_page("a(.)".to_owned());
    let (id, generation) = panel.begin_extraction(r"k=(?P<key>\d+)".to_owned());
    let table = extract_table("k=12", r"k=(?P<key>\d+)", 10);
    assert!(panel.finish_extraction(id, generation, table));
    panel.pages[1].headers = vec![("old".to_owned(), "Old".to_owned())];
    let (next, visible) = (panel.next_page_id, panel.visible);
    let view = panel.render(r"k=(?P<key>\d+)");
    assert!(matches!(view.notice, TableNotice::Table));
    assert_eq!(view.labels, vec!["Table 1", "Table 2"]);
    assert_eq!(view.active, 1);
    assert_eq!(panel.pages[0].rendered_table_key, "");
    assert!(panel.pages[0].headers.is_empty());
    assert_eq!(
        panel.pages[1].headers,
        vec![("old".to_owned(), "Old".to_owned()), ("key".to_owned(), "key".to_owned())]
    );
    assert_eq!((panel.next_page_id, panel.visible, panel.active_page), (next, visible, 1));
    panel.pages[1].headers[1].1 = "Number".to_owned();
    panel.render(r"k=(?P<key>\d+)");
    assert_eq!(panel.pages[1].headers[1].1, "Number");
}

#[test]
fn errors_of_patterns_are_shown() {
    let mut panel = RegexTablePanel::new();
    let (id, generation) = panel.begin_extraction("(".to_owned());
    panel.finish_extraction(id, generation, extract_table("x", "(", 10));
    assert!(matches!(panel.render("(").notice, TableNotice::Error(_)));
}

#[test]
fn buttons_speak_both_languages() {
    assert_eq!(button_tip(TableButton::AddPage, Language::EnUs), "New regex table tab");
    assert_eq!(
        button_tip(TableButton::RemovePage, Language::EnUs),
        "Delete current regex table tab"
    );
    assert_ne!(
        button_tip(TableButton::Export, Language::EnUs),
        button_tip(TableButton::Export, Language::ZhCn)
    );
}
