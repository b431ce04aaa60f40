//! What the menus offer, and which commands keys stand for.

use crate::i18n::{Key, Language};
use crate::text;
use vstd::prelude::*;

verus! {

/// A word of the window frame that the shell translates itself.
#[derive(Clone, Copy, Debug, PartialEq, Eq, Structural)]
pub enum Word {
    About,
    ClearLiveLogHistory,
    ClearRecentFiles,
    CloseAllTabs,
    DarkTheme,
    Developer,
    Email,
    Export,
    GitHubRepository,
    HideFilters,
    HideMarks,
    HideRegexTable,
    HideSearchResults,
    ImportFilters,
    LightTheme,
    ShowMarks,
    ShowRegexTable,
    ShowSearchResults,
    StartLiveCapture,
    StopLiveCapture,
    Theme,
    Version,
}

/// What is written on an entry.
#[derive(Clone, Copy, Debug, PartialEq, Eq, Structural)]
pub enum Label {
    Key(Key),
    Word(Word),
    /// The path of a recent file, by its place in the list.
    Recent(usize),
    /// The name of a theme, by its place in the list.
    Theme(usize),
    /// The name of an encoding, by its place in the list.
    Encoding(usize),
}

/// A command of the menus. Files are told apart by numbers, themes and encodings by their places
/// in their lists.
#[derive(Clone, Copy, Debug, PartialEq, Eq, Structural)]
pub enum MenuCommand {
    Open,
    OpenRecent(u64),
    ClearRecentFiles,
    ClearLiveLogHistory,
    Refresh,
    Export,
    SaveEditedCopy,
    ImportFilters,
    SetEncoding(usize),
    SetTheme(usize),
    CopySelection,
    ToggleFilters,
    ToggleSearchResults,
    AddFilter,
    EditFilter,
    DeleteFilter,
    SaveFilters,
    ToggleLanguage,
}

/// What stands in one row of a menu.
#[derive(Clone, Copy, Debug, PartialEq, Eq, Structural)]
pub enum MenuRow {
    /// A line between entries.
    Separator,
    /// An entry that cannot be chosen.
    Heading(Label),
    /// An entry that can be chosen, unless it is off.
    Entry { label: Label, command: MenuCommand, enabled: bool, checked: bool },
}

/// A row, and the submenu that it stands in, if it does.
#[derive(Clone, Copy, Debug, PartialEq, Eq, Structural)]
pub struct MenuItem {
    pub submenu: Option<Label>,
    pub row: MenuRow,
}

/// The menus of the title bar.
#[derive(Clone, Copy, Debug, PartialEq, Eq, Structural)]
pub enum MenuGroup {
    File,
    View,
    Encoding,
    Filters,
}

/// A theme that can be chosen.
pub struct ThemeChoice {
    pub name: String,
    pub dark: bool,
}

/// What the menus depend on.
pub struct MenuState {
    pub language: Language,
    pub recent: Vec<u64>,
    pub filter_selected: bool,
    pub has_view: bool,
    pub can_export: bool,
    pub encodings: usize,
    pub active_encoding: Option<usize>,
    pub themes: Vec<ThemeChoice>,
    pub active_theme: String,
}

/// An entry of a menu itself.
pub open spec fn plain(label: Label, command: MenuCommand, enabled: bool) -> MenuItem {
    MenuItem {
        submenu: None,
        row: MenuRow::Entry { label, command, enabled, checked: false },
    }
}

/// An entry of a submenu.
pub open spec fn nested(
    submenu: Label,
    label: Label,
    command: MenuCommand,
    enabled: bool,
    checked: bool,
) -> MenuItem {
    MenuItem {
        submenu: Some(submenu),
        row: MenuRow::Entry { label, command, enabled, checked },
    }
}

/// A row of a submenu that is no entry.
pub open spec fn nested_row(submenu: Label, row: MenuRow) -> MenuItem {
    MenuItem { submenu: Some(submenu), row }
}

/// The submenu of recent files.
pub open spec fn recent_menu(recent: Seq<u64>) -> Seq<MenuItem> {
    let here = Label::Key(Key::RecentFiles);
    let files = if recent.len() == 0 {
        seq![nested_row(here, MenuRow::Heading(Label::Key(Key::NoRecentFiles)))]
    } else {
        Seq::new(
            recent.len(),
            |i: int|
                nested(
                    here,
                    Label::Recent(i as usize),
                    MenuCommand::OpenRecent(recent[i]),
                    true,
                    false,
                ),
        )
    };
    files + seq![
        nested_row(here, MenuRow::Separator),
        nested(
            here,
            Label::Word(Word::ClearRecentFiles),
            MenuCommand::ClearRecentFiles,
            recent.len() > 0,
            false,
        ),
    ]
}

/// The menu of files.
pub open spec fn file_menu(recent: Seq<u64>, can_export: bool) -> Seq<MenuItem> {
    seq![
        plain(Label::Key(Key::Open), MenuCommand::Open, true),
        plain(Label::Key(Key::Refresh), MenuCommand::Refresh, true),
        plain(Label::Word(Word::Export), MenuCommand::Export, can_export),
        plain(Label::Key(Key::SaveEditedCopy), MenuCommand::SaveEditedCopy, true),
        MenuItem { submenu: None, row: MenuRow::Separator },
        plain(Label::Word(Word::ClearLiveLogHistory), MenuCommand::ClearLiveLogHistory, true),
    ] + recent_menu(recent)
}

/// The entries of the light or the dark ones of the first `count` themes.
pub open spec fn theme_entries(
    themes: Seq<ThemeChoice>,
    active: Seq<char>,
    dark: bool,
    count: nat,
) -> Seq<MenuItem>
    decreases count,
{
    if count == 0 {
        Seq::empty()
    } else {
        let before = theme_entries(themes, active, dark, (count - 1) as nat);
        let i = (count - 1) as usize;
        if themes[count - 1].dark == dark {
            before.push(
                nested(
                    Label::Word(Word::Theme),
                    Label::Theme(i),
                    MenuCommand::SetTheme(i),
                    true,
                    themes[count - 1].name@ == active,
                ),
            )
        } else {
            before
        }
    }
}

/// The menu of what is shown and how.
pub open spec fn view_menu(
    language: Language,
    has_view: bool,
    themes: Seq<ThemeChoice>,
    active_theme: Seq<char>,
) -> Seq<MenuItem> {
    let here = Label::Word(Word::Theme);
    let other = match language {
        Language::ZhCn => Key::English,
        Language::EnUs => Key::Chinese,
    };
    seq![
        plain(Label::Key(Key::Copy), MenuCommand::CopySelection, has_view),
        nested(
            Label::Key(Key::Language),
            Label::Key(other),
            MenuCommand::ToggleLanguage,
            true,
            false,
        ),
        nested_row(here, MenuRow::Heading(Label::Word(Word::LightTheme))),
    ] + theme_entries(themes, active_theme, false, themes.len()) + seq![
        nested_row(here, MenuRow::Separator),
        nested_row(here, MenuRow::Heading(Label::Word(Word::DarkTheme))),
    ] + theme_entries(themes, active_theme, true, themes.len())
}

/// The menu of encodings.
pub open spec fn encoding_menu(
    encodings: nat,
    active: Option<usize>,
    has_view: bool,
) -> Seq<MenuItem> {
    Seq::new(
        encodings,
        |i: int|
            MenuItem {
                submenu: None,
                row: MenuRow::Entry {
                    label: Label::Encoding(i as usize),
                    command: MenuCommand::SetEncoding(i as usize),
                    enabled: has_view,
                    checked: active == Some(i as usize),
                },
            },
    )
}

/// The menu of filters.
pub open spec fn filter_menu(selected: bool) -> Seq<MenuItem> {
    seq![
        plain(Label::Word(Word::ImportFilters), MenuCommand::ImportFilters, true),
        plain(Label::Key(Key::AddFilter), MenuCommand::AddFilter, true),
        plain(Label::Key(Key::EditFilter), MenuCommand::EditFilter, selected),
        plain(Label::Key(Key::DeleteFilter), MenuCommand::DeleteFilter, selected),
        plain(Label::Key(Key::SaveFilter), MenuCommand::SaveFilters, true),
    ]
}

/// What a menu of the title bar offers.
pub open spec fn menu(group: MenuGroup, state: MenuState) -> Seq<MenuItem> {
    match group {
        MenuGroup::File => file_menu(state.recent@, state.can_export),
        MenuGroup::View => view_menu(
            state.language,
            state.has_view,
            state.themes@,
            state.active_theme@,
        ),
        MenuGroup::Encoding => encoding_menu(
            state.encodings as nat,
            state.active_encoding,
            state.has_view,
        ),
        MenuGroup::Filters => filter_menu(state.filter_selected),
    }
}

fn add_plain(out: &mut Vec<MenuItem>, label: Label, command: MenuCommand, enabled: bool)
    ensures
        final(out)@ == old(out)@.push(plain(label, command, enabled)),
{
    out.push(
        MenuItem {
            submenu: None,
            row: MenuRow::Entry { label, command, enabled, checked: false },
        },
    );
}

fn file_items(recent: &Vec<u64>, can_export: bool) -> (r: Vec<MenuItem>)
    ensures
        r@ == file_menu(recent@, can_export),
{
    let mut out: Vec<MenuItem> = Vec::new();
    add_plain(&mut out, Label::Key(Key::Open), MenuCommand::Open, true);
    add_plain(&mut out, Label::Key(Key::Refresh), MenuCommand::Refresh, true);
    add_plain(&mut out, Label::Word(Word::Export), MenuCommand::Export, can_export);
    add_plain(&mut out, Label::Key(Key::SaveEditedCopy), MenuCommand::SaveEditedCopy, true);
    out.push(MenuItem { submenu: None, row: MenuRow::Separator });
    add_plain(
        &mut out,
        Label::Word(Word::ClearLiveLogHistory),
        MenuCommand::ClearLiveLogHistory,
        true,
    );
    let ghost first = out@;
    let here = Some(Label::Key(Key::RecentFiles));
    let n = recent.len();
    if n == 0 {
        out.push(
            MenuItem {
                submenu: here,
                row: MenuRow::Heading(Label::Key(Key::NoRecentFiles)),
            },
        );
    }
    let mut i: usize = 0;
    while i < n
        invariant
            n == recent@.len(),
            i <= n,
            here == Some(Label::Key(Key::RecentFiles)),
            n > 0 ==> out@ == first + Seq::new(
                i as nat,
                |k: int|
                    nested(
                        Label::Key(Key::RecentFiles),
                        Label::Recent(k as usize),
                        MenuCommand::OpenRecent(recent@[k]),
                        true,
                        false,
                    ),
            ),
            n == 0 ==> out@ == first.push(
                nested_row(
                    Label::Key(Key::RecentFiles),
                    MenuRow::Heading(Label::Key(Key::NoRecentFiles)),
                ),
            ),
        decreases n - i,
    {
        out.push(
            MenuItem {
                submenu: here,
                row: MenuRow::Entry {
                    label: Label::Recent(i),
                    command: MenuCommand::OpenRecent(recent[i]),
                    enabled: true,
                    checked: false,
                },
            },
        );
        i += 1;
    }
    out.push(MenuItem { submenu: here, row: MenuRow::Separator });
    out.push(
        MenuItem {
            submenu: here,
            row: MenuRow::Entry {
                label: Label::Word(Word::ClearRecentFiles),
                command: MenuCommand::ClearRecentFiles,
                enabled: n > 0,
                checked: false,
            },
        },
    );
    assert(out@ =~= file_menu(recent@, can_export));
    out
}

fn add_themes(out: &mut Vec<MenuItem>, themes: &Vec<ThemeChoice>, active: &str, dark: bool)
    ensures
        final(out)@ == old(out)@ + theme_entries(themes@, active@, dark, themes@.len()),
{
    let ghost first = out@;
    let mut i: usize = 0;
    assert(out@ =~= first + theme_entries(themes@, active@, dark, 0));
    while i < themes.len()
        invariant
            i <= themes@.len(),
            out@ == first + theme_entries(themes@, active@, dark, i as nat),
        decreases themes@.len() - i,
    {
        if themes[i].dark == dark {
            out.push(
                MenuItem {
                    submenu: Some(Label::Word(Word::Theme)),
                    row: MenuRow::Entry {
                        label: Label::Theme(i),
                        command: MenuCommand::SetTheme(i),
                        enabled: true,
                        checked: text::same_text(&themes[i].name, active),
                    },
                },
            );
        }
        assert(out@ =~= first + theme_entries(themes@, active@, dark, (i + 1) as nat));
        i += 1;
    }
}

fn view_items(
    language: Language,
    has_view: bool,
    themes: &Vec<ThemeChoice>,
    active_theme: &str,
) -> (r: Vec<MenuItem>)
    ensures
        r@ == view_menu(language, has_view, themes@, active_theme@),
{
    let mut out: Vec<MenuItem> = Vec::new();
    add_plain(&mut out, Label::Key(Key::Copy), MenuCommand::CopySelection, has_view);
    let other = match language {
        Language::ZhCn => Key::English,
        Language::EnUs => Key::Chinese,
    };
    out.push(
        MenuItem {
            submenu: Some(Label::Key(Key::Language)),
            row: MenuRow::Entry {
                label: Label::Key(other),
                command: MenuCommand::ToggleLanguage,
                enabled: true,
                checked: false,
            },
        },
    );
    let here = Some(Label::Word(Word::Theme));
    out.push(
        MenuItem { submenu: here, row: MenuRow::Heading(Label::Word(Word::LightTheme)) },
    );
    add_themes(&mut out, themes, active_theme, false);
    out.push(MenuItem { submenu: here, row: MenuRow::Separator });
    out.push(MenuItem { submenu: here, row: MenuRow::Heading(Label::Word(Word::DarkTheme)) });
    add_themes(&mut out, themes, active_theme, true);
    assert(out@ =~= view_menu(language, has_view, themes@, active_theme@));
    out
}

fn encoding_items(encodings: usize, active: Option<usize>, has_view: bool) -> (r: Vec<MenuItem>)
    ensures
        r@ == encoding_menu(encodings as nat, active, has_view),
{
    let mut out: Vec<MenuItem> = Vec::new();
    let mut i: usize = 0;
    while i < encodings
        invariant
            i <= encodings,
            out@ == encoding_menu(i as nat, active, has_view),
        decreases encodings - i,
    {
        let checked = match active {
            Some(other) => other == i,
            None => false,
        };
        out.push(
            MenuItem {
                submenu: None,
                row: MenuRow::Entry {
                    label: Label::Encoding(i),
                    command: MenuCommand::SetEncoding(i),
                    enabled: has_view,
                    checked,
                },
            },
        );
        i += 1;
    }
    out
}

/// What a menu of the title bar offers.
pub fn menu_items(group: MenuGroup, state: &MenuState) -> (r: Vec<MenuItem>)
    ensures
        r@ == menu(group, *state),
{
    match group {
        MenuGroup::File => file_items(&state.recent, state.can_export),
        MenuGroup::View => view_items(
            state.language,
            state.has_view,
            &state.themes,
            &state.active_theme,
        ),
        MenuGroup::Encoding => encoding_items(
            state.encodings,
            state.active_encoding,
            state.has_view,
        ),
        MenuGroup::Filters => {
            let mut out: Vec<MenuItem> = Vec::new();
            let selected = state.filter_selected;
            add_plain(
                &mut out,
                Label::Word(Word::ImportFilters),
                MenuCommand::ImportFilters,
                true,
            );
            add_plain(&mut out, Label::Key(Key::AddFilter), MenuCommand::AddFilter, true);
            add_plain(&mut out, Label::Key(Key::EditFilter), MenuCommand::EditFilter, selected);
            add_plain(&mut out, Label::Key(Key::DeleteFilter), MenuCommand::DeleteFilter, selected);
            add_plain(&mut out, Label::Key(Key::SaveFilter), MenuCommand::SaveFilters, true);
            assert(out@ =~= filter_menu(selected));
            out
        },
    }
}

proof fn lemma_theme_entries(
    themes: Seq<ThemeChoice>,
    active: Seq<char>,
    dark: bool,
    count: nat,
    i: int,
)
    requires
        count <= themes.len(),
        themes.len() <= usize::MAX,
        0 <= i < themes.len(),
    ensures
        theme_entries(themes, active, dark, count).contains(
            nested(
                Label::Word(Word::Theme),
                Label::Theme(i as usize),
                MenuCommand::SetTheme(i as usize),
                true,
                themes[i].name@ == active,
            ),
        ) <==> (i < count && themes[i].dark == dark),
    decreases count,
{
    let wanted = nested(
        Label::Word(Word::Theme),
        Label::Theme(i as usize),
        MenuCommand::SetTheme(i as usize),
        true,
        themes[i].name@ == active,
    );
    let all = theme_entries(themes, active, dark, count);
    if count > 0 {
        lemma_theme_entries(themes, active, dark, (count - 1) as nat, i);
        let before = theme_entries(themes, active, dark, (count - 1) as nat);
        if themes[count - 1].dark == dark {
            if i == count - 1 {
                assert(all[before.len() as int] == wanted);
            }
            if before.contains(wanted) {
                let k = choose|k: int| 0 <= k < before.len() && before[k] == wanted;
                assert(all[k] == wanted);
            }
            if all.contains(wanted) && i != count - 1 {
                let k = choose|k: int| 0 <= k < all.len() && all[k] == wanted;
                assert(k < before.len());
                assert(before[k] == wanted);
            }
        }
    }
}

/// Every theme can be chosen from the menu, in one of its two lists and not in the other, and
/// the active one is checked there.
pub proof fn every_theme_is_offered_once(
    themes: Seq<ThemeChoice>,
    active: Seq<char>,
    i: int,
)
    requires
        themes.len() <= usize::MAX,
        0 <= i < themes.len(),
    ensures
        ({
            let entry = nested(
                Label::Word(Word::Theme),
                Label::Theme(i as usize),
                MenuCommand::SetTheme(i as usize),
                true,
                themes[i].name@ == active,
            );
            &&& theme_entries(themes, active, themes[i].dark, themes.len()).contains(entry)
            &&& !theme_entries(themes, active, !themes[i].dark, themes.len()).contains(entry)
        }),
{
    lemma_theme_entries(themes, active, themes[i].dark, themes.len(), i);
    lemma_theme_entries(themes, active, !themes[i].dark, themes.len(), i);
}

/// What a key stands for in the window.
#[derive(Clone, Copy, Debug, PartialEq, Eq, Structural)]
pub enum Shortcut {
    Command(MenuCommand),
    FocusSearch,
    AddFilterFromSelection,
    ToggleShowOnly,
    NextTab,
    PreviousTab,
    CloseTab,
}

/// The modifiers that are held down with a key. `primary` is the one that commands take on this
/// platform.
#[derive(Clone, Copy, Debug, PartialEq, Eq, Structural)]
pub struct HeldKeys {
    pub primary: bool,
    pub alt: bool,
    pub function: bool,
    pub shift: bool,
}

/// What a key stands for with the primary modifier and without or with shift.
pub open spec fn shortcut_of(key: Seq<char>, shift: bool, has_tabs: bool) -> Option<Shortcut> {
    if shift {
        if key == "s"@ {
            Some(Shortcut::Command(MenuCommand::SaveEditedCopy))
        } else if key == "f"@ {
            Some(Shortcut::AddFilterFromSelection)
        } else if key == "b"@ {
            Some(Shortcut::Command(MenuCommand::ToggleSearchResults))
        } else if key == "l"@ {
            Some(Shortcut::ToggleShowOnly)
        } else if key == "tab"@ && has_tabs {
            Some(Shortcut::PreviousTab)
        } else {
            None
        }
    } else if key == "o"@ {
        Some(Shortcut::Command(MenuCommand::Open))
    } else if key == "r"@ {
        Some(Shortcut::Command(MenuCommand::Refresh))
    } else if key == "s"@ {
        Some(Shortcut::Command(MenuCommand::SaveFilters))
    } else if key == "f"@ {
        Some(Shortcut::FocusSearch)
    } else if key == "n"@ {
        Some(Shortcut::Command(MenuCommand::AddFilter))
    } else if key == "e"@ {
        Some(Shortcut::Command(MenuCommand::EditFilter))
    } else if key == "b"@ {
        Some(Shortcut::Command(MenuCommand::ToggleFilters))
    } else if key == "tab"@ && has_tabs {
        Some(Shortcut::NextTab)
    } else if key == "w"@ {
        Some(Shortcut::CloseTab)
    } else {
        None
    }
}

/// What a key stands for. Without the primary modifier, or with the alternate or function key,
/// it is not for the window.
pub fn on_key(held: HeldKeys, key: &str, has_tabs: bool) -> (r: Option<Shortcut>)
    ensures
        r == if !held.primary || held.alt || held.function {
            None
        } else {
            shortcut_of(key@, held.shift, has_tabs)
        },
{
    if !held.primary || held.alt || held.function {
        return None;
    }
    if held.shift {
        if text::same_text(key, "s") {
            Some(Shortcut::Command(MenuCommand::SaveEditedCopy))
        } else if text::same_text(key, "f") {
            Some(Shortcut::AddFilterFromSelection)
        } else if text::same_text(key, "b") {
            Some(Shortcut::Command(MenuCommand::ToggleSearchResults))
        } else if text::same_text(key, "l") {
            Some(Shortcut::ToggleShowOnly)
        } else if text::same_text(key, "tab") && has_tabs {
            Some(Shortcut::PreviousTab)
        } else {
            None
        }
    } else if text::same_text(key, "o") {
        Some(Shortcut::Command(MenuCommand::Open))
    } else if text::same_text(key, "r") {
        Some(Shortcut::Command(MenuCommand::Refresh))
    } else if text::same_text(key, "s") {
        Some(Shortcut::Command(MenuCommand::SaveFilters))
    } else if text::same_text(key, "f") {
        Some(Shortcut::FocusSearch)
    } else if text::same_text(key, "n") {
        Some(Shortcut::Command(MenuCommand::AddFilter))
    } else if text::same_text(key, "e") {
        Some(Shortcut::Command(MenuCommand::EditFilter))
    } else if text::same_text(key, "b") {
        Some(Shortcut::Command(MenuCommand::ToggleFilters))
    } else if text::same_text(key, "tab") && has_tabs {
        Some(Shortcut::NextTab)
    } else if text::same_text(key, "w") {
        Some(Shortcut::CloseTab)
    } else {
        None
    }
}

/// The themes of one kind are offered in their order, each under its own number, and the active
/// one is marked.
pub proof fn themes_are_offered_in_order(
    themes: Seq<ThemeChoice>,
    active: Seq<char>,
    dark: bool,
    count: nat,
)
    requires
        count <= themes.len(),
    ensures
        theme_entries(themes, active, dark, count) == Seq::new(count, |i: int| i).filter(
            |i: int| themes[i].dark == dark,
        ).map_values(
            |i: int|
                MenuItem {
                    submenu: Some(Label::Word(Word::Theme)),
                    row: MenuRow::Entry {
                        label: Label::Theme(i as usize),
                        command: MenuCommand::SetTheme(i as usize),
                        enabled: true,
                        checked: themes[i].name@ == active,
                    },
                },
        ),
    decreases count,
{
    reveal(Seq::filter);
    let places = Seq::new(count, |i: int| i);
    let right = |i: int| themes[i].dark == dark;
    let entry = |i: int|
        MenuItem {
            submenu: Some(Label::Word(Word::Theme)),
            row: MenuRow::Entry {
                label: Label::Theme(i as usize),
                command: MenuCommand::SetTheme(i as usize),
                enabled: true,
                checked: themes[i].name@ == active,
            },
        };
    if count > 0 {
        let before = Seq::new((count - 1) as nat, |i: int| i);
        themes_are_offered_in_order(themes, active, dark, (count - 1) as nat);
        assert(places.drop_last() =~= before);
        assert(places.last() == count - 1);
        assert(before.filter(right).push(count - 1).map_values(entry) =~= before.filter(
            right,
        ).map_values(entry).push(entry(count - 1)));
    }
    assert(theme_entries(themes, active, dark, count) =~= places.filter(right).map_values(entry));
}

/// The menu offers each recent file in its order and opens that very file; with none it says so,
/// and then there is nothing to clear. Each encoding is offered under its own number, and the
/// active one is marked.
pub proof fn recent_files_and_encodings_are_offered(
    recent: Seq<u64>,
    encodings: nat,
    active: Option<usize>,
    has_view: bool,
    i: int,
)
    ensures
        recent.len() > 0 ==> recent_menu(recent).len() == recent.len() + 2,
        0 <= i < recent.len() ==> (recent_menu(recent)[i].row matches MenuRow::Entry {
            label,
            command,
            enabled,
            checked,
        } && command == MenuCommand::OpenRecent(recent[i]) && enabled && !checked),
        recent.len() == 0 ==> recent_menu(recent)[0].row == MenuRow::Heading(
            Label::Key(Key::NoRecentFiles),
        ),
        (recent_menu(recent).last().row matches MenuRow::Entry { label, command, enabled, checked }
            && command == MenuCommand::ClearRecentFiles && enabled == (recent.len() > 0)),
        encoding_menu(encodings, active, has_view).len() == encodings,
        0 <= i < encodings ==> (encoding_menu(encodings, active, has_view)[i].row
            matches MenuRow::Entry { label, command, enabled, checked } && command
            == MenuCommand::SetEncoding(i as usize) && enabled == has_view && checked == (active
            == Some(i as usize))),
{
}

/// An entry can be chosen unless it needs what is not there: a log to export from or to copy
/// from, or a filter to edit or to delete. The language on offer is the one that is not in use.
pub proof fn entries_need_what_they_work_on(
    recent: Seq<u64>,
    can_export: bool,
    selected: bool,
    language: Language,
    has_view: bool,
    themes: Seq<ThemeChoice>,
    active_theme: Seq<char>,
    i: int,
)
    ensures
        0 <= i < 6 ==> (file_menu(recent, can_export)[i].row matches MenuRow::Entry {
            label,
            command,
            enabled,
            checked,
        } ==> !checked && (enabled <==> can_export || !(command is Export))),
        0 <= i < recent_menu(recent).len() ==> file_menu(recent, can_export)[i + 6] == recent_menu(
            recent,
        )[i],
        filter_menu(selected).len() == 5,
        0 <= i < 5 ==> (filter_menu(selected)[i].row matches MenuRow::Entry {
            label,
            command,
            enabled,
            checked,
        } && !checked && (enabled <==> selected || !(command is EditFilter
            || command is DeleteFilter))),
        (view_menu(language, has_view, themes, active_theme)[0].row matches MenuRow::Entry {
            label,
            command,
            enabled,
            checked,
        } && command == MenuCommand::CopySelection && enabled == has_view),
        (view_menu(language, has_view, themes, active_theme)[1].row matches MenuRow::Entry {
            label,
            command,
            enabled,
            checked,
        } && command == MenuCommand::ToggleLanguage && enabled && (label == Label::Key(Key::English)
            <==> language == Language::ZhCn) && (label == Label::Key(Key::Chinese) <==> language
            == Language::EnUs)),
{
}

/// No two keys mean the same, and going from tab to tab takes tabs.
pub proof fn shortcuts_differ(a: Seq<char>, b: Seq<char>, shift: bool, other: bool, has_tabs: bool)
    requires
        shortcut_of(a, shift, has_tabs) is Some,
        shortcut_of(a, shift, has_tabs) == shortcut_of(b, other, has_tabs),
    ensures
        a == b,
        shift == other,
        shortcut_of(a, shift, has_tabs) == Some(Shortcut::NextTab) || shortcut_of(
            a,
            shift,
            has_tabs,
        ) == Some(Shortcut::PreviousTab) ==> has_tabs && a == "tab"@,
        shortcut_of(a, shift, has_tabs) == Some(Shortcut::PreviousTab) ==> shift,
        shortcut_of(a, shift, has_tabs) == Some(Shortcut::NextTab) ==> !shift,
{
}

} // verus!
