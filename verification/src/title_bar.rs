//! The title bar: its switches, its window controls and the list below the search box.

use crate::i18n::Key;
use crate::menus::{Label, Word};
use crate::search::SearchBox;
use crate::text;
use vstd::prelude::*;

verus! {

/// A switch of the title bar.
#[derive(Clone, Copy, Debug, PartialEq, Eq, Structural)]
pub enum Switch {
    Capture,
    Marks,
    ShowOnly,
    RegexTable,
    Filters,
    SearchResults,
}

/// What is shown of a switch: whether it is on, and what it says. A click turns it over.
#[derive(Clone, Copy, Debug, PartialEq, Eq, Structural)]
pub struct SwitchView {
    pub switch: Switch,
    pub on: bool,
    pub label: Label,
}

/// What the switches stand at.
#[derive(Clone, Copy, Debug, PartialEq, Eq, Structural)]
pub struct SwitchState {
    pub capturing: bool,
    pub marks: bool,
    pub show_only: bool,
    pub regex_table: bool,
    pub filters: bool,
    pub search_results: bool,
}

/// What a switch says: what a click leads to.
pub open spec fn switch_label(switch: Switch, on: bool) -> Label {
    match switch {
        Switch::Capture => Label::Word(
            if on {
                Word::StopLiveCapture
            } else {
                Word::StartLiveCapture
            },
        ),
        Switch::Marks => Label::Word(
            if on {
                Word::HideMarks
            } else {
                Word::ShowMarks
            },
        ),
        Switch::ShowOnly => Label::Key(
            if on {
                Key::ShowAll
            } else {
                Key::ShowOnlyFiltered
            },
        ),
        Switch::RegexTable => Label::Word(
            if on {
                Word::HideRegexTable
            } else {
                Word::ShowRegexTable
            },
        ),
        Switch::Filters => if on {
            Label::Word(Word::HideFilters)
        } else {
            Label::Key(Key::ShowFilters)
        },
        Switch::SearchResults => Label::Word(
            if on {
                Word::HideSearchResults
            } else {
                Word::ShowSearchResults
            },
        ),
    }
}

/// What is shown of a switch.
pub open spec fn switch_view(switch: Switch, on: bool) -> SwitchView {
    SwitchView { switch, on, label: switch_label(switch, on) }
}

/// A switch that says what a click leads to.
pub fn panel_toggle(switch: Switch, on: bool) -> (r: SwitchView)
    ensures
        r == switch_view(switch, on),
{
    let label = match switch {
        Switch::Capture => Label::Word(
            if on {
                Word::StopLiveCapture
            } else {
                Word::StartLiveCapture
            },
        ),
        Switch::Marks => Label::Word(
            if on {
                Word::HideMarks
            } else {
                Word::ShowMarks
            },
        ),
        Switch::ShowOnly => Label::Key(
            if on {
                Key::ShowAll
            } else {
                Key::ShowOnlyFiltered
            },
        ),
        Switch::RegexTable => Label::Word(
            if on {
                Word::HideRegexTable
            } else {
                Word::ShowRegexTable
            },
        ),
        Switch::Filters => if on {
            Label::Word(Word::HideFilters)
        } else {
            Label::Key(Key::ShowFilters)
        },
        Switch::SearchResults => Label::Word(
            if on {
                Word::HideSearchResults
            } else {
                Word::ShowSearchResults
            },
        ),
    };
    SwitchView { switch, on, label }
}

/// The switch between all lines and those that match.
pub fn show_only_toggle(only: bool) -> (r: SwitchView)
    ensures
        r == switch_view(Switch::ShowOnly, only),
{
    panel_toggle(Switch::ShowOnly, only)
}

/// The switches from left to right.
pub open spec fn switch_row(state: SwitchState) -> Seq<SwitchView> {
    seq![
        switch_view(Switch::Capture, state.capturing),
        switch_view(Switch::Marks, state.marks),
        switch_view(Switch::ShowOnly, state.show_only),
        switch_view(Switch::RegexTable, state.regex_table),
        switch_view(Switch::Filters, state.filters),
        switch_view(Switch::SearchResults, state.search_results),
    ]
}

/// The switches from left to right.
pub fn switches(state: SwitchState) -> (r: Vec<SwitchView>)
    ensures
        r@ == switch_row(state),
{
    let mut out: Vec<SwitchView> = Vec::new();
    out.push(panel_toggle(Switch::Capture, state.capturing));
    out.push(panel_toggle(Switch::Marks, state.marks));
    out.push(show_only_toggle(state.show_only));
    out.push(panel_toggle(Switch::RegexTable, state.regex_table));
    out.push(panel_toggle(Switch::Filters, state.filters));
    out.push(panel_toggle(Switch::SearchResults, state.search_results));
    assert(out@ =~= switch_row(state));
    out
}

/// A part of the title bar that the window system knows.
#[derive(Clone, Copy, Debug, PartialEq, Eq, Structural)]
pub enum ControlArea {
    Min,
    Max,
    Close,
}

/// A control of the window.
#[derive(Clone, Copy, Debug, PartialEq, Eq, Structural)]
pub struct WindowControl {
    pub area: ControlArea,
    pub label: Key,
    /// It is shown as dangerous under the pointer.
    pub danger: bool,
    /// The window system handles clicks on it itself.
    pub native: bool,
}

/// The controls of the window from left to right.
pub open spec fn control_row(maximized: bool, windows: bool) -> Seq<WindowControl> {
    seq![
        WindowControl {
            area: ControlArea::Min,
            label: Key::Minimize,
            danger: false,
            native: false,
        },
        WindowControl {
            area: ControlArea::Max,
            label: if maximized {
                Key::Restore
            } else {
                Key::Maximize
            },
            danger: false,
            native: windows,
        },
        WindowControl {
            area: ControlArea::Close,
            label: Key::Close,
            danger: true,
            native: false,
        },
    ]
}

/// The controls of the window from left to right. The one in the middle restores a window that
/// is maximized; on Windows the system does that itself.
pub fn window_controls(maximized: bool, windows: bool) -> (r: Vec<WindowControl>)
    ensures
        r@ == control_row(maximized, windows),
{
    let mut out: Vec<WindowControl> = Vec::new();
    out.push(
        WindowControl {
            area: ControlArea::Min,
            label: Key::Minimize,
            danger: false,
            native: false,
        },
    );
    out.push(
        WindowControl {
            area: ControlArea::Max,
            label: if maximized {
                Key::Restore
            } else {
                Key::Maximize
            },
            danger: false,
            native: windows,
        },
    );
    out.push(
        WindowControl { area: ControlArea::Close, label: Key::Close, danger: true, native: false },
    );
    assert(out@ =~= control_row(maximized, windows));
    out
}

/// The search box as it is shown: the rows below it, which of them is chosen, whether they are
/// shown, and whether there is a history to clear.
pub struct SearchBoxView {
    pub rows: Vec<String>,
    pub chosen: Option<usize>,
    pub popup: bool,
    pub can_clear: bool,
}

/// The search box as it is shown.
pub fn search_box(search: &SearchBox) -> (r: SearchBoxView)
    ensures
        text::texts(r.rows@) == text::texts(search.suggestions@),
        r.chosen == search.index,
        r.popup == search.open,
        r.can_clear == (search.history@.len() > 0),
{
    let ghost wanted = text::texts(search.suggestions@);
    let mut rows: Vec<String> = Vec::new();
    let mut i: usize = 0;
    while i < search.suggestions.len()
        invariant
            i <= search.suggestions@.len(),
            wanted == text::texts(search.suggestions@),
            text::texts(rows@) == wanted.take(i as int),
        decreases search.suggestions@.len() - i,
    {
        let ghost before = rows@;
        rows.push(search.suggestions[i].clone());
        assert(text::texts(rows@) =~= text::texts(before).push(wanted[i as int]));
        assert(wanted.take(i + 1) =~= wanted.take(i as int).push(wanted[i as int]));
        i += 1;
    }
    assert(wanted.take(i as int) =~= wanted);
    SearchBoxView {
        rows,
        chosen: search.index,
        popup: search.open,
        can_clear: search.history.len() > 0,
    }
}

/// The name behind the application.
pub const DEVELOPER: &'static str = "barry chen";

/// Where the application is developed.
pub const GITHUB_REPOSITORY: &'static str = "https://github.com/965962591/logd";

/// Where to write to.
pub const CONTACT_EMAIL: &'static str = "barrymchen@gmail.com";

/// A row of what is said about the application: a heading, a text, and where it leads to.
pub struct AboutRow {
    pub label: Word,
    pub value: String,
    pub link: Option<String>,
}

/// What is said about the application.
pub fn about_rows(version: &str) -> (r: Vec<AboutRow>)
    ensures
        r@.len() == 4,
        r@[0].label == Word::Version && r@[0].value@ == version@ && r@[0].link is None,
        r@[1].label == Word::Developer && r@[1].value@ == DEVELOPER@ && r@[1].link is None,
        r@[2].label == Word::GitHubRepository && r@[2].value@ == GITHUB_REPOSITORY@
            && r@[2].link is Some && r@[2].link.unwrap()@ == GITHUB_REPOSITORY@,
        r@[3].label == Word::Email && r@[3].value@ == CONTACT_EMAIL@ && r@[3].link is Some
            && r@[3].link.unwrap()@ == "mailto:"@ + CONTACT_EMAIL@,
{
    let mut out: Vec<AboutRow> = Vec::new();
    out.push(AboutRow { label: Word::Version, value: version.to_owned(), link: None });
    out.push(AboutRow { label: Word::Developer, value: DEVELOPER.to_owned(), link: None });
    out.push(
        AboutRow {
            label: Word::GitHubRepository,
            value: GITHUB_REPOSITORY.to_owned(),
            link: Some(GITHUB_REPOSITORY.to_owned()),
        },
    );
    out.push(
        AboutRow {
            label: Word::Email,
            value: CONTACT_EMAIL.to_owned(),
            link: Some(text::concat2("mailto:", CONTACT_EMAIL)),
        },
    );
    out
}

/// Each switch stands once in the row, shows what it stands at, and says something else when it
/// is on than when it is off; switches differ in what they say.
pub proof fn switches_say_what_a_click_leads_to(state: SwitchState, a: Switch, b: Switch)
    ensures
        switch_label(a, true) != switch_label(a, false),
        a != b ==> switch_label(a, true) != switch_label(b, true) && switch_label(a, false)
            != switch_label(b, false) && switch_label(a, true) != switch_label(b, false),
        ({
            let row = switch_row(state);
            let place: int = match a {
                Switch::Capture => 0,
                Switch::Marks => 1,
                Switch::ShowOnly => 2,
                Switch::RegexTable => 3,
                Switch::Filters => 4,
                Switch::SearchResults => 5,
            };
            let on = match a {
                Switch::Capture => state.capturing,
                Switch::Marks => state.marks,
                Switch::ShowOnly => state.show_only,
                Switch::RegexTable => state.regex_table,
                Switch::Filters => state.filters,
                Switch::SearchResults => state.search_results,
            };
            &&& row.len() == 6
            &&& row[place].switch == a
            &&& row[place].on == on
            &&& row[place].label == switch_label(a, on)
        }),
{
}

/// The controls stand in the order in which the window shows them. Only the last one is
/// dangerous, and only the middle one is ever left to the window system; what that one says
/// follows from whether the window is maximized.
pub proof fn only_closing_is_dangerous(maximized: bool, windows: bool, i: int)
    requires
        0 <= i < 3,
    ensures
        ({
            let row = control_row(maximized, windows);
            &&& row.len() == 3
            &&& row[i].danger <==> row[i].area == ControlArea::Close
            &&& row[i].native <==> windows && row[i].area == ControlArea::Max
            &&& row[0].area == ControlArea::Min && row[0].label == Key::Minimize
            &&& row[1].area == ControlArea::Max
            &&& row[1].label == Key::Restore <==> maximized
            &&& row[1].label == Key::Maximize <==> !maximized
            &&& row[2].area == ControlArea::Close && row[2].label == Key::Close
        }),
{
}

} // verus!
