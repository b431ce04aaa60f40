use logd::app::{AppAction, CaptureChange, LogdApp, Opened, SaveTarget};
use logd::filters::{FilterFormat, FilterInput, FilterScope, FilterSpec, HighlightMode};
use logd::i18n::{Key, Language};
use logd::live_log::LiveLogEvent;
use logd::menus::{
    menu_items, on_key, HeldKeys, Label, MenuCommand, MenuGroup, MenuRow, MenuState, Shortcut,
    ThemeChoice, Word,
};
use logd::search::{search_questions, AcceptedTerms};

fn app() -> LogdApp {
    LogdApp::new(Language::EnUs, Vec::new(), Vec::new(), FilterScope::CurrentFile)
}

fn with_tabs(paths: &[u64]) -> LogdApp {
    let mut app = app();
    for path in paths {
        assert_eq!(app.open_path(*path, Some("log")), Opened::LoadLog);
        app.finish_open_log(*path, format!("tab {path}"), &Ok(()));
    }
    app
}

fn template() -> FilterSpec {
    FilterSpec {
        origin: 0,
        text: String::new(),
        description: String::new(),
        enabled: true,
        excluding: false,
        mode: HighlightMode::Line,
        regex: false,
        case_sensitive: false,
        fore: None,
        back: None,
        bold: false,
        italic: false,
        font_size: None,
        scope: FilterScope::AllFiles,
    }
}

fn held(shift: bool) -> HeldKeys {
    HeldKeys {
        primary: true,
        alt: false,
        function: false,
        shift,
    }
}

#[test]
fn paths_open_by_their_extension() {
    let mut app = with_tabs(&[1, 2]);
    assert_eq!(app.open_path(7, Some("Tat")), Opened::LoadFilters(FilterFormat::Tat));
    assert_eq!(app.open_path(7, Some("logd")), Opened::LoadFilters(FilterFormat::Logd));
    assert_eq!(app.open_path(1, None), Opened::Shown(0));
    assert_eq!(app.tabs.active, 0);
    assert_eq!(app.recent_files, vec![1, 2]);
    assert_eq!(app.status, None);
    app.finish_open_log(9, "x".to_owned(), &Err("missing".to_owned()));
    assert!(app.status.as_deref().unwrap().ends_with(": missing"));
    assert_eq!(app.tabs.tabs.len(), 2);
}

#[test]
fn captures_start_stop_and_end() {
    let mut app = app();
    assert_eq!(app.toggle_live_capture(), CaptureChange::Start);
    app.finish_start_capture(Err("no adb".to_owned()));
    assert_eq!(app.status.as_deref(), Some("no adb"));
    assert!(!app.live_capture_running());
    app.finish_start_capture(Ok(()));
    assert_eq!(app.status.as_deref(), Some("Starting ADB logcat capture..."));
    assert!(app.live_capture_running());
    assert_eq!(app.toggle_live_capture(), CaptureChange::Stop);
    assert_eq!(app.status.as_deref(), Some("ADB logcat capture stopped"));
    app.finish_start_capture(Ok(()));
    assert_eq!(app.on_live_event(LiveLogEvent::CaptureFinished), None);
    assert!(!app.live_capture_running());
    assert_eq!(
        app.on_live_event(LiveLogEvent::DeviceReady { serial: "S".to_owned(), path: 4 }),
        Some((4, "ADB S".to_owned()))
    );
    app.on_live_event(LiveLogEvent::Error("lost".to_owned()));
    assert_eq!(app.status.as_deref(), Some("lost"));
    assert_eq!(app.on_live_event(LiveLogEvent::DeviceStopped), None);
}

#[test]
fn clearing_the_history_closes_its_tabs() {
    let mut app = with_tabs(&[1, 2, 3]);
    app.finish_start_capture(Ok(()));
    assert!(app.clear_live_log_history());
    assert_eq!(app.status.as_deref(), Some("Clearing realtime log history..."));
    assert!(app.finish_clear_history(Ok(1), &vec![false, false, true]));
    assert_eq!(app.status.as_deref(), Some("Cleared 1 realtime log file"));
    assert_eq!(app.tabs.tabs.len(), 2);
    app.finish_clear_history(Ok(2), &vec![false, false]);
    assert_eq!(app.status.as_deref(), Some("Cleared 2 realtime log files"));
    assert!(!app.finish_clear_history(Err("busy".to_owned()), &vec![true, true]));
    assert_eq!(app.tabs.tabs.len(), 2);
}

#[test]
fn a_search_is_remembered_and_becomes_filters() {
    let mut app = app();
    app.search_results_panel.set_visible(false);
    let none = AcceptedTerms { times: Vec::new(), fields: Vec::new() };
    assert!(search_questions("a & b").times.is_empty());
    assert!(app.set_global_search("  a & b ", &none, 7, &template()));
    assert_eq!(app.search_query, "(\"a\" and \"b\")");
    assert_eq!(app.search.history, vec!["a & b"]);
    assert_eq!(app.book.search_filters.len(), 2);
    assert_eq!(app.book.search_filters[1].text, "b");
    assert_eq!(app.book.search_filters[1].fore, Some(7));
    assert_eq!(app.book.search_filters[1].mode, HighlightMode::Field);
    assert!(app.book.filters.is_empty() && !app.book.dirty);
    assert!(app.search_results_panel.visible());
    assert!(app.set_theme(9));
    assert_eq!(app.book.search_filters[0].fore, Some(9));
    assert!(!app.set_global_search(" ", &none, 7, &template()));
    assert_eq!(app.search.history, vec!["a & b"]);
    assert!(app.book.search_filters.is_empty());
    assert!(!app.set_theme(9));
    assert!(app.wants_theme("Ayu", "Other"));
    assert!(!app.wants_theme("Ayu", "Ayu"));
}

#[test]
fn filters_are_loaded_and_saved() {
    let mut app = app();
    assert!(app.load_filters(FilterFormat::Logd, Ok((vec![template()], true)), 5));
    assert!(app.status.as_deref().unwrap().ends_with(": 1"));
    assert_eq!(app.book.selected, Some(0));
    assert!(app.book.show_only_filtered);
    assert_eq!(app.save_target(), SaveTarget::File(5));
    assert!(!app.load_filters(FilterFormat::Tat, Err("broken".to_owned()), 6));
    assert_eq!(app.status.as_deref(), Some(".tat: broken"));
    assert!(!app.load_filters(FilterFormat::Logd, Err("broken".to_owned()), 6));
    assert_eq!(app.status.as_deref(), Some(".logd: broken"));
    assert_eq!(app.import_filters(Some("tat"), "Import"), Some(FilterFormat::Tat));
    assert_eq!(app.import_filters(Some("txt"), "Import"), None);
    assert_eq!(app.status.as_deref(), Some("Import: .logd / .tat"));
    assert_eq!(app.save_target_of(FilterFormat::Tat, 3), SaveTarget::Beside(3));
    assert_eq!(app.save_target_of(FilterFormat::Logd, 3), SaveTarget::File(3));
    app.book.set_show_only(false);
    assert!(!app.finish_save_filters(8, "/x", &Err("full".to_owned())));
    assert!(app.book.dirty);
    assert!(app.finish_save_filters(8, "/x", &Ok(())));
    assert!(!app.book.dirty);
    assert_eq!(app.book.save_path, Some(8));
    assert!(app.status.as_deref().unwrap().ends_with(": /x"));
}

#[test]
fn filters_without_a_file_are_saved_beside_the_log() {
    let mut app = with_tabs(&[4]);
    assert_eq!(app.save_target(), SaveTarget::Beside(4));
    assert!(matches!(
        app.dispatch(MenuCommand::SaveFilters, FilterScope::AllFiles),
        AppAction::SaveFilters(SaveTarget::Beside(4))
    ));
    assert_eq!(self::app().save_target(), SaveTarget::Ask);
}

#[test]
fn commands_switch_panels_and_the_language() {
    let mut app = app();
    app.dispatch(MenuCommand::ToggleFilters, FilterScope::AllFiles);
    assert!(!app.filter_panel.visible());
    app.dispatch(MenuCommand::ToggleFilters, FilterScope::AllFiles);
    assert!(app.filter_panel.visible());
    app.dispatch(MenuCommand::ToggleSearchResults, FilterScope::AllFiles);
    assert!(!app.search_results_panel.visible());
    app.dispatch(MenuCommand::ToggleLanguage, FilterScope::AllFiles);
    assert_eq!(app.language(), Language::ZhCn);
    app.show_mark_panel(false);
    assert!(!app.mark_panel.visible());
    assert!(app.show_regex_table(true));
    assert!(!app.show_regex_table(false));
    assert!(!app.regex_table_panel.visible());
}

#[test]
fn commands_about_a_log_need_one() {
    let mut empty = app();
    for command in [
        MenuCommand::Refresh,
        MenuCommand::Export,
        MenuCommand::SaveEditedCopy,
        MenuCommand::SetEncoding(1),
        MenuCommand::CopySelection,
        MenuCommand::EditFilter,
        MenuCommand::DeleteFilter,
    ] {
        assert!(matches!(empty.dispatch(command, FilterScope::AllFiles), AppAction::Nothing));
    }
    let mut app = with_tabs(&[3]);
    assert!(matches!(
        app.dispatch(MenuCommand::Refresh, FilterScope::AllFiles),
        AppAction::Reload(3)
    ));
    app.finish_refresh("/logs/3", &Ok(()));
    assert!(app.status.as_deref().unwrap().ends_with(": /logs/3"));
    assert!(matches!(
        app.dispatch(MenuCommand::ClearRecentFiles, FilterScope::AllFiles),
        AppAction::SaveRecentFiles
    ));
    assert!(app.recent_files.is_empty());
}

#[test]
fn keys_reach_the_commands() {
    let mut app = with_tabs(&[1, 2, 3]);
    assert!(app.on_key(HeldKeys { primary: false, ..held(false) }, "o", FilterScope::AllFiles).is_none());
    assert!(app.on_key(HeldKeys { alt: true, ..held(false) }, "o", FilterScope::AllFiles).is_none());
    assert!(matches!(
        app.on_key(held(false), "o", FilterScope::AllFiles),
        Some(AppAction::PromptOpen)
    ));
    assert!(matches!(
        app.on_key(held(false), "tab", FilterScope::AllFiles),
        Some(AppAction::Activated(0))
    ));
    assert!(matches!(
        app.on_key(held(true), "tab", FilterScope::AllFiles),
        Some(AppAction::Activated(2))
    ));
    assert!(matches!(
        app.on_key(held(false), "w", FilterScope::AllFiles),
        Some(AppAction::Closed { refilter: true })
    ));
    assert_eq!(app.tabs.tabs.len(), 2);
    assert!(matches!(
        app.on_key(held(true), "l", FilterScope::AllFiles),
        Some(AppAction::ShowOnlyChanged)
    ));
    assert!(app.book.show_only_filtered);
    app.filter_panel.set_visible(false);
    assert!(matches!(
        app.on_key(held(false), "n", FilterScope::AllFiles),
        Some(AppAction::FillEditor(_))
    ));
    assert!(app.filter_panel.visible() && app.book.editor.open);
    assert!(app.on_key(held(false), "x", FilterScope::AllFiles).is_none());
    assert_eq!(on_key(held(false), "tab", false), None);
    assert_eq!(on_key(held(true), "f", false), Some(Shortcut::AddFilterFromSelection));
}

#[test]
fn a_tab_is_filtered_again_where_filters_mean_another_file() {
    let mut app = with_tabs(&[1, 2]);
    assert!(!app.set_active(0, false));
    assert!(app.set_active(1, true));
    assert!(!app.set_active(9, true));
    app.begin_add_filter(FilterScope::CurrentFile);
    let input = FilterInput {
        text: "x".to_owned(),
        description: String::new(),
        fore: None,
        back: None,
    };
    app.book.commit_filter(&input, &template());
    assert_eq!(app.goto_search_result(0, false), (true, true));
    assert_eq!(app.goto_search_result(5, true), (false, false));
    let fields = app.begin_add_filter_from_selection(Some(" y "), FilterScope::AllFiles);
    assert_eq!(fields.unwrap().text, "y");
}

fn menu_state() -> MenuState {
    MenuState {
        language: Language::EnUs,
        recent: vec![11, 12],
        filter_selected: false,
        has_view: true,
        can_export: false,
        encodings: 2,
        active_encoding: Some(1),
        themes: vec![
            ThemeChoice { name: "Day".to_owned(), dark: false },
            ThemeChoice { name: "Night".to_owned(), dark: true },
        ],
        active_theme: "Night".to_owned(),
    }
}

#[test]
fn menus_offer_what_is_possible() {
    let mut state = menu_state();
    let file = menu_items(MenuGroup::File, &state);
    assert!(file.iter().any(|item| item.row
        == MenuRow::Entry {
            label: Label::Recent(1),
            command: MenuCommand::OpenRecent(12),
            enabled: true,
            checked: false,
        }));
    assert!(file.iter().any(|item| item.row
        == MenuRow::Entry {
            label: Label::Word(Word::Export),
            command: MenuCommand::Export,
            enabled: false,
            checked: false,
        }));
    let view = menu_items(MenuGroup::View, &state);
    assert!(view.iter().any(|item| item.row
        == MenuRow::Entry {
            label: Label::Theme(1),
            command: MenuCommand::SetTheme(1),
            enabled: true,
            checked: true,
        }));
    let encodings = menu_items(MenuGroup::Encoding, &state);
    assert_eq!(encodings.len(), 2);
    let filters = menu_items(MenuGroup::Filters, &state);
    assert_eq!(filters.len(), 5);
    state.recent.clear();
    let file = menu_items(MenuGroup::File, &state);
    assert!(file.iter().any(|item| item.row == MenuRow::Heading(Label::Key(Key::NoRecentFiles))));
}

#[test]
fn a_new_application_has_nothing_open() {
    let mut app = app();
    assert_eq!(app.book.should_close_window(), (true, false));
    assert!(!app.book.prompt_open && app.book.selected.is_none());
    assert_eq!(app.book.editor.editing, None);
    assert!(!app.book.editor.bold && app.book.editor.font_size.is_none());
    assert!(app.mark_panel.selected_lines(&Vec::new()).is_empty());
    assert_eq!(app.search_results_panel.selected_line, None);
    assert_eq!(app.regex_table_panel.page_tabs(), vec![(1, true)]);
}
