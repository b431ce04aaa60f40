use logd::i18n::{text, Key, Language};
use logd::menus::{Label, Word};
use logd::platform::{initial_window_size, primary_modifier, window_options};
use logd::search::SearchBox;
use logd::status::{progress_label, render_status, ViewStatus, Work};
use logd::theme::{
    apply_dark_surface, find_theme, palette, search_foreground_rgb, starting_theme, ActiveTheme,
};
use logd::title_bar::{
    about_rows, panel_toggle, search_box, show_only_toggle, switches, window_controls, ControlArea,
    Switch, SwitchState,
};

#[test]
fn the_language_follows_the_environment() {
    let english = || Some("en_US.UTF-8".to_owned());
    assert_eq!(Language::from_env(None, english()), Language::EnUs);
    assert_eq!(Language::from_env(Some("zh".to_owned()), english()), Language::ZhCn);
    assert_eq!(Language::from_env(Some("EN".to_owned()), None), Language::EnUs);
    assert_eq!(Language::from_env(None, None), Language::ZhCn);
    assert_eq!(Language::EnUs.toggle(), Language::ZhCn);
    assert_eq!(Language::EnUs.toggle().toggle(), Language::EnUs);
}

#[test]
fn keys_have_a_text_in_both_languages() {
    assert_eq!(text(Key::File, Language::EnUs), "File");
    assert_eq!(text(Key::File, Language::ZhCn), "\u{6587}\u{4ef6}");
    assert_eq!(text(Key::CloseTab, Language::EnUs), "Close Current Tab");
}

#[test]
fn texts_differ_and_are_in_their_language() {
    let keys = [
        Key::Filters, Key::Filtering, Key::FilterPanel, Key::ShowFilters, Key::Line, Key::Lines,
        Key::Close, Key::CloseTab, Key::Language, Key::English,
    ];
    let mut seen = Vec::new();
    for key in keys {
        let english = text(key, Language::EnUs);
        let chinese = text(key, Language::ZhCn);
        assert!(!english.is_empty() && english.is_ascii());
        assert!(!chinese.is_empty() && !chinese.is_ascii());
        assert!(!seen.contains(&english) && !seen.contains(&chinese));
        seen.push(english);
        seen.push(chinese);
    }
}

fn theme(name: &str, dark: bool) -> ActiveTheme<u32> {
    ActiveTheme {
        name: name.to_owned(),
        dark,
        background: 1,
        sidebar: 2,
        foreground: 3,
        title_bar: 4,
        title_bar_border: 5,
        list_hover: 6,
        danger: 7,
        danger_foreground: 8,
        caret: 9,
        selection: 10,
        muted_foreground: 11,
        border: 12,
        status_bar: 13,
        scrollbar: 14,
        scrollbar_thumb: 15,
        scrollbar_thumb_hover: 16,
        tab_bar: 17,
        tab: 18,
        tab_active: 19,
        tab_foreground: 20,
        tab_active_foreground: 21,
        primary: 22,
        yellow: 23,
        tiles: 24,
        token_background: 25,
        token_tab_bar: 26,
        token_tiles: 27,
    }
}

#[test]
fn the_default_dark_theme_has_its_own_surface() {
    let mut dark = theme("Default Dark", true);
    assert_eq!(palette(&dark, 99).background, 99);
    assert!(apply_dark_surface(&mut dark, 99));
    assert_eq!([dark.background, dark.sidebar, dark.tab_bar, dark.tiles], [99; 4]);
    assert_eq!([dark.token_background, dark.token_tab_bar, dark.token_tiles], [99; 3]);
    assert_eq!((dark.foreground, dark.tab, dark.yellow), (3, 18, 23));
    let mut light = theme("Default Light", false);
    assert_eq!(palette(&light, 99).background, 1);
    assert!(!apply_dark_surface(&mut light, 99));
    assert_eq!([light.background, light.sidebar, light.tab_bar, light.tiles], [1, 2, 17, 24]);
    assert_eq!([light.token_background, light.token_tab_bar, light.token_tiles], [25, 26, 27]);
    assert_eq!(palette(&light, 99).foreground, 3);
}

#[test]
fn themes_are_found_by_name() {
    let names = vec!["Ayu".to_owned(), "Default Dark".to_owned()];
    assert_eq!(find_theme(&names, "Ayu"), Some(0));
    assert_eq!(find_theme(&names, "Other"), None);
    assert_eq!(starting_theme(&names, "Ayu"), Some(0));
    assert_eq!(starting_theme(&names, "Other"), Some(1));
    assert_eq!(starting_theme(&Vec::new(), "Other"), None);
    assert_eq!(search_foreground_rgb(0x1234_56ff), 0x0012_3456);
}

#[test]
fn windows_have_a_size_and_a_modifier() {
    assert_eq!(initial_window_size(), (1000, 650));
    assert_eq!(window_options().min_size, (760, 480));
    assert_eq!(window_options().title, "logd");
    assert!(primary_modifier(true, true, false));
    assert!(!primary_modifier(true, false, true));
    assert!(primary_modifier(false, false, true));
}

fn status() -> ViewStatus {
    ViewStatus {
        total_lines: 1234,
        index_complete: true,
        top_line: Some(9),
        encoding: "UTF-8".to_owned(),
        matches: None,
        indexing: None,
        filtering: None,
        from_cache: false,
        error: None,
    }
}

fn work(searching: Option<u64>, extracting: bool) -> Work {
    Work {
        search_word: "Searching".to_owned(),
        searching,
        table_word: "Regex table".to_owned(),
        extracting,
    }
}

#[test]
fn the_status_bar_speaks_of_work_over_all_files() {
    assert_eq!(
        render_status(None, &None, &work(Some(42), true), Language::EnUs),
        vec!["Ready", "Searching 42%", "Regex table"]
    );
    assert_eq!(
        render_status(None, &Some("done".to_owned()), &work(None, true), Language::EnUs),
        vec!["Ready", "done", "Regex table"]
    );
    assert_eq!(
        render_status(Some(&status()), &None, &work(Some(0), false), Language::EnUs),
        vec!["1,234 lines", "Ln 10", "UTF-8", "Searching 0%"]
    );
}

#[test]
fn the_status_bar_speaks_of_the_active_log() {
    let idle = work(None, false);
    assert_eq!(
        render_status(None, &None, &idle, Language::EnUs),
        vec![text(Key::Ready, Language::EnUs)]
    );
    assert_eq!(
        render_status(Some(&status()), &Some("done".to_owned()), &idle, Language::EnUs),
        vec!["1,234 lines", "Ln 10", "UTF-8", "done"]
    );
    let busy = ViewStatus {
        index_complete: false,
        top_line: None,
        matches: Some(1000),
        indexing: Some(40),
        filtering: Some(7),
        from_cache: true,
        error: Some("bad".to_owned()),
        ..status()
    };
    assert_eq!(
        render_status(Some(&busy), &None, &idle, Language::EnUs),
        vec![
            "1,234+ lines", "Ln 0", "UTF-8", "matches 1,000", "Index 40%", "Filter 7%", "cache",
            "bad"
        ]
    );
    assert_eq!(progress_label("Search", 100), "Search 100%");
}

#[test]
fn switches_say_what_a_click_leads_to() {
    let state = SwitchState {
        capturing: true,
        marks: false,
        show_only: false,
        regex_table: true,
        filters: false,
        search_results: true,
    };
    let row = switches(state);
    assert_eq!(row.len(), 6);
    assert_eq!(row[0].label, Label::Word(Word::StopLiveCapture));
    assert_eq!(row[1].label, Label::Word(Word::ShowMarks));
    assert_eq!(row[2], show_only_toggle(false));
    assert_eq!(row[2].label, Label::Key(Key::ShowOnlyFiltered));
    assert_eq!(row[4].label, Label::Key(Key::ShowFilters));
    assert!(row[5].on);
    assert_eq!(panel_toggle(Switch::Filters, true).label, Label::Word(Word::HideFilters));
}

#[test]
fn window_controls_follow_the_window() {
    let controls = window_controls(true, true);
    assert_eq!(controls[1].label, Key::Restore);
    assert!(controls[1].native && !controls[0].native);
    assert_eq!(controls[2].area, ControlArea::Close);
    assert!(controls[2].danger);
    assert_eq!(window_controls(false, false)[1].label, Key::Maximize);
}

#[test]
fn the_search_box_shows_its_suggestions() {
    let search = SearchBox {
        history: vec!["a".to_owned()],
        suggestions: vec!["a".to_owned(), "b".to_owned()],
        open: true,
        index: Some(1),
    };
    let view = search_box(&search);
    assert_eq!(view.rows, vec!["a", "b"]);
    assert_eq!(view.chosen, Some(1));
    assert!(view.popup && view.can_clear);
}

#[test]
fn about_rows_name_the_version() {
    let rows = about_rows("1.2.3");
    assert_eq!(rows[0].value, "1.2.3");
    assert_eq!(rows[3].link.as_deref(), Some("mailto:barrymchen@gmail.com"));
}
