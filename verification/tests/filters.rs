use logd::filters::{
    filter_format, filter_scope_label, filters_changed, next_filter_font_size, render_filters,
    save_format, FilterBook, FilterFormat, FilterInput, FilterScope, FilterSpec, FilterToggle,
    HighlightMode, TabRefresh,
};
use logd::i18n::{Key, Language};

fn template() -> FilterSpec {
    FilterSpec {
        origin: 0,
        text: String::new(),
        description: String::new(),
        enabled: true,
        excluding: false,
        mode: HighlightMode::Line,
        regex: false,
        case_sensitive: false,
        fore: None,
        back: None,
        bold: false,
        italic: false,
        font_size: None,
        scope: FilterScope::CurrentFile,
    }
}

fn filter(text: &str, scope: FilterScope) -> FilterSpec {
    FilterSpec {
        text: text.to_owned(),
        scope,
        ..template()
    }
}

fn input(text: &str) -> FilterInput {
    FilterInput {
        text: text.to_owned(),
        description: " why ".to_owned(),
        fore: Some(0xff0000),
        back: None,
    }
}

fn book(filters: Vec<FilterSpec>) -> FilterBook {
    let mut book = FilterBook::new(FilterScope::CurrentFile);
    book.load_filters(filters, false, 1);
    book
}

#[test]
fn font_sizes_go_round() {
    let mut size = None;
    let mut seen = Vec::new();
    loop {
        size = next_filter_font_size(size);
        if size.is_none() || seen.len() > 20 {
            break;
        }
        seen.push(size.unwrap());
    }
    assert_eq!(seen.first(), Some(&12));
    assert!(seen.windows(2).all(|pair| pair[0] < pair[1]));
    assert_eq!(size, None);
    assert_eq!(next_filter_font_size(Some(99)), Some(12));
}

#[test]
fn a_new_filter_is_committed_trimmed_and_selected() {
    let mut book = book(Vec::new());
    let fields = book.begin_add_filter(FilterScope::AllFiles);
    assert_eq!(fields.text, "");
    book.toggle_editor_bold();
    assert!(book.commit_filter(&input("  error "), &template()));
    assert_eq!(book.filters[0].text, "error");
    assert_eq!(book.filters[0].description, "why");
    assert_eq!(book.filters[0].mode, HighlightMode::Field);
    assert_eq!(book.filters[0].scope, FilterScope::AllFiles);
    assert!(book.filters[0].bold);
    assert_eq!(book.selected, Some(0));
    assert!(book.dirty);
    assert!(!book.editor.open);
    assert!(!book.commit_filter(&input("  "), &template()));
    assert_eq!(book.filters.len(), 1);
}

#[test]
fn an_edited_filter_stays_in_its_place() {
    let mut book = book(vec![
        filter("a", FilterScope::AllFiles),
        filter("b", FilterScope::AllFiles),
    ]);
    book.select_filter(1);
    let fields = book.begin_edit_filter().unwrap();
    assert_eq!(fields.text, "b");
    book.toggle_editor_scope();
    book.cycle_editor_font_size();
    assert!(book.commit_filter(&input("c"), &template()));
    assert_eq!(book.filters.len(), 2);
    assert_eq!(book.filters[1].text, "c");
    assert_eq!(book.filters[1].mode, HighlightMode::Line);
    assert_eq!(book.filters[1].scope, FilterScope::CurrentFile);
    assert_eq!(book.filters[1].font_size, Some(12));
}

#[test]
fn a_selected_text_becomes_a_filter() {
    let mut book = book(Vec::new());
    assert!(book.begin_add_filter_from_selection(None, FilterScope::AllFiles).is_none());
    assert!(book.begin_add_filter_from_selection(Some(" "), FilterScope::AllFiles).is_none());
    assert!(!book.editor.open);
    let fields = book.begin_add_filter_from_selection(Some(" x "), FilterScope::AllFiles);
    assert_eq!(fields.unwrap().text, "x");
    assert!(book.editor.open);
    book.cancel_editor();
    assert!(!book.editor.open);
}

#[test]
fn deleting_selects_the_next_or_the_last() {
    let mut book = book(vec![
        filter("a", FilterScope::AllFiles),
        filter("b", FilterScope::AllFiles),
        filter("c", FilterScope::AllFiles),
    ]);
    book.select_filter(1);
    assert!(book.delete_selected_filter());
    assert_eq!(book.selected, Some(1));
    assert_eq!(book.filters[1].text, "c");
    assert!(book.delete_selected_filter());
    assert_eq!(book.selected, Some(0));
    assert!(book.delete_selected_filter());
    assert_eq!(book.selected, None);
    assert!(!book.delete_selected_filter());
}

#[test]
fn a_filter_for_the_current_file_is_off_elsewhere() {
    let mut book = book(vec![
        filter("here", FilterScope::CurrentFile),
        filter("all", FilterScope::AllFiles),
    ]);
    book.set_search(vec!["term".to_owned()], 0x00ff00, &template());
    let active = book.filters_for_tab(1, 1);
    assert!(active[0].enabled && active[1].enabled);
    let other = book.filters_for_tab(0, 1);
    assert!(!other[0].enabled && other[1].enabled);
    assert_eq!(other[2].text, "term");
    assert_eq!(other[2].fore, Some(0x00ff00));
    assert_eq!(book.filters.len(), 2);
    assert!(book.has_current_file_filter());
    assert!(book.has_multi_file_filter_results(&vec![true, true]));
    assert!(!book.has_multi_file_filter_results(&vec![true, false]));
    assert!(book.recolor_search(0x0000ff));
    assert_eq!(book.search_filters[0].fore, Some(0x0000ff));
}

#[test]
fn switches_of_a_filter_turn_over() {
    let mut book = book(vec![filter("a", FilterScope::AllFiles)]);
    for toggle in [
        FilterToggle::Excluding,
        FilterToggle::Mode,
        FilterToggle::Regex,
        FilterToggle::CaseSensitive,
        FilterToggle::Scope,
    ] {
        book.toggle_filter(0, toggle);
    }
    assert!(book.filters[0].excluding && book.filters[0].regex && book.filters[0].case_sensitive);
    assert_eq!(book.filters[0].mode, HighlightMode::Field);
    assert_eq!(book.filters[0].scope, FilterScope::CurrentFile);
    book.toggle_filter(0, FilterToggle::Enabled(false));
    assert!(!book.all_filters_enabled());
    assert!(book.set_all_filters_enabled(true));
    assert!(!book.set_all_filters_enabled(true));
    assert!(book.all_filters_enabled() && book.has_filters());
}

#[test]
fn unsaved_filters_are_asked_for_once() {
    let mut book = book(Vec::new());
    assert_eq!(book.should_close_window(), (true, false));
    assert!(book.set_show_only(true));
    assert!(!book.set_show_only(true));
    assert_eq!(book.should_close_window(), (false, true));
    assert_eq!(book.should_close_window(), (false, false));
    book.close_prompt();
    assert_eq!(book.should_close_window(), (false, true));
    book.saved(4, false);
    assert!(book.dirty);
    book.saved(4, true);
    assert_eq!(book.save_path, Some(4));
    assert_eq!(book.should_close_window().0, true);
}

#[test]
fn only_the_active_tab_is_filtered_at_once() {
    assert_eq!(
        filters_changed(1, false, &vec![false, false]),
        vec![TabRefresh::MarkDirty, TabRefresh::Apply]
    );
    assert_eq!(
        filters_changed(1, false, &vec![true, false]),
        vec![TabRefresh::Apply, TabRefresh::Apply]
    );
    assert_eq!(
        filters_changed(0, true, &vec![false, false]),
        vec![TabRefresh::Apply, TabRefresh::Apply]
    );
}

#[test]
fn files_of_filters_are_known_by_their_extension() {
    assert_eq!(filter_format(Some("TAT")), Some(FilterFormat::Tat));
    assert_eq!(filter_format(Some("LogD")), Some(FilterFormat::Logd));
    assert_eq!(filter_format(Some("log")), None);
    assert_eq!(filter_format(None), None);
    assert_eq!(save_format(Some("tat")), FilterFormat::Tat);
    assert_eq!(save_format(Some("log")), FilterFormat::Logd);
}

#[test]
fn the_panel_lists_filters_with_their_counts() {
    let mut book = book(vec![
        filter("a", FilterScope::AllFiles),
        filter("b", FilterScope::CurrentFile),
    ]);
    let view = render_filters(&book, true, Some(&vec![1500]), Language::EnUs);
    assert_eq!(view.rows[0].count, "1,500");
    assert_eq!(view.rows[1].count, "-");
    assert!(view.rows[0].selected && !view.rows[1].selected);
    assert_eq!(view.notice, None);
    assert!(view.editor.is_none());
    let waiting = render_filters(&book, true, None, Language::EnUs);
    assert_eq!(waiting.rows[0].count, "...");
    book.begin_edit_filter();
    let editor = render_filters(&book, false, None, Language::EnUs).editor.unwrap();
    assert!(editor.all_files);
    assert_eq!(editor.font_size_label, "A");
    book.load_filters(Vec::new(), false, 1);
    assert_eq!(
        render_filters(&book, false, None, Language::ZhCn).notice,
        Some(Key::NoFilters)
    );
    assert_ne!(
        filter_scope_label(FilterScope::AllFiles, Language::EnUs),
        filter_scope_label(FilterScope::CurrentFile, Language::EnUs)
    );
}
