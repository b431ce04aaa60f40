//! The application: what it holds, and what every command, key and event does to it.
//!
//! Files, windows, dialogs and processes are left to the shell. A step that needs one of them
//! says so in its result, and what came of it is handed to the step that follows.

use crate::dock::FilterPanel;
use crate::filters;
use crate::filters::{
    EditorFields, FilterBook, FilterEditor, FilterFormat, FilterScope, FilterSpec,
};
use crate::i18n;
use crate::i18n::{Key, Language};
use crate::live_log::LiveLogEvent;
use crate::marks::{LineKey, MarkPanel};
use crate::menus;
use crate::menus::{HeldKeys, MenuCommand, Shortcut};
use crate::results::SearchResultsPanel;
use crate::search;
use crate::search::{AcceptedTerms, SearchBox, MAX_SEARCH_HISTORY};
use crate::settings;
use crate::settings::MAX_RECENT_FILES;
use crate::table_panel;
use crate::table_panel::RegexTablePanel;
use crate::tabs;
use crate::tabs::{Opening, TabList};
use crate::text;
use vstd::prelude::*;

verus! {

/// The application.
pub struct LogdApp {
    pub tabs: TabList,
    pub book: FilterBook,
    pub search: SearchBox,
    /// What is searched for over all files. Nothing is where it is empty.
    pub search_query: String,
    pub recent_files: Vec<u64>,
    pub language: Language,
    /// What happened last.
    pub status: Option<String>,
    /// Device logs are being captured.
    pub capturing: bool,
    pub filter_panel: FilterPanel,
    pub mark_panel: MarkPanel,
    pub search_results_panel: SearchResultsPanel,
    pub regex_table_panel: RegexTablePanel,
}

/// What opening a path asks for.
#[derive(Clone, Copy, Debug, PartialEq, Eq, Structural)]
pub enum Opened {
    /// The filters in the file are to be loaded.
    LoadFilters(FilterFormat),
    /// The log is open already, at a place, and now active.
    Shown(usize),
    /// The log is to be loaded.
    LoadLog,
}

/// Where the filters are to be saved.
#[derive(Clone, Copy, Debug, PartialEq, Eq, Structural)]
pub enum SaveTarget {
    /// In a file.
    File(u64),
    /// Beside a log, under its name with the native extension.
    Beside(u64),
    /// Where the user says.
    Ask,
}

/// What a command asks of the shell.
#[derive(Debug)]
pub enum AppAction {
    Nothing,
    PromptOpen,
    OpenPath(u64),
    SaveRecentFiles,
    /// The kept device logs are to be removed, after a capture was stopped, if there was one.
    ClearHistory { stop: bool },
    /// A log is to be loaded again.
    Reload(u64),
    Export,
    SaveEditedCopy,
    PromptImport,
    SetEncoding(usize),
    SetTheme(usize),
    CopySelection,
    /// A panel was shown or hidden: the arrangement is to be put in order and saved.
    LayoutChanged,
    /// The editor is to be filled.
    FillEditor(EditorFields),
    FiltersChanged,
    SaveFilters(SaveTarget),
    LanguageChanged,
    FocusSearch,
    /// The selected text is to be offered as a filter.
    AddFromSelection,
    ShowOnlyChanged,
    /// A tab became active.
    Activated(usize),
    /// A tab was closed; the active one has to be filtered again, or not.
    Closed { refilter: bool },
}

/// What is still open of a capture.
#[derive(Clone, Copy, Debug, PartialEq, Eq, Structural)]
pub enum CaptureChange {
    /// A capture is to be started.
    Start,
    /// The capture is to be stopped.
    Stop,
}

/// A word, a colon and something about it.
pub open spec fn remark(word: Seq<char>, about: Seq<char>) -> Seq<char> {
    word + ": "@ + about
}

/// What is said of cleared device logs.
pub open spec fn cleared_words(count: nat) -> Seq<char> {
    "Cleared "@ + text::decimal(count) + " realtime log file"@ + if count == 1 {
        ""@
    } else {
        "s"@
    }
}

/// What is said when filters were loaded: how many.
pub open spec fn loaded_words(count: nat, lang: Language) -> Seq<char> {
    remark(i18n::translation(Key::Filters, lang)@, text::decimal(count))
}

/// The file extension that an error about filters starts with.
pub open spec fn format_words(format: FilterFormat) -> Seq<char> {
    match format {
        FilterFormat::Tat => ".tat"@,
        FilterFormat::Logd => ".logd"@,
    }
}

impl LogdApp {
    /// Everything that the application holds is in order.
    pub open spec fn wf(&self) -> bool {
        &&& self.tabs.wf()
        &&& self.book.wf()
        &&& self.search.wf()
        &&& self.recent_files@.len() <= MAX_RECENT_FILES
        &&& self.regex_table_panel.wf()
    }

    /// An application without logs and filters, with every panel shown. The history and the
    /// recent files are those of earlier runs.
    pub fn new(
        language: Language,
        history: Vec<String>,
        recent_files: Vec<u64>,
        scope: FilterScope,
    ) -> (r: LogdApp)
        requires
            history@.len() <= MAX_SEARCH_HISTORY,
            recent_files@.len() <= MAX_RECENT_FILES,
        ensures
            r.wf(),
            r.language == language,
            r.search.history == history,
            r.search.suggestions@.len() == 0,
            !r.search.open,
            r.search.index is None,
            r.recent_files == recent_files,
            r.search_query@.len() == 0,
            r.tabs.tabs@.len() == 0,
            r.book.filters@.len() == 0,
            r.book.search_filters@.len() == 0,
            !r.book.show_only_filtered,
            !r.book.dirty,
            r.book.save_path is None,
            !r.book.prompt_open,
            r.book.selected is None,
            r.book.editor == (FilterEditor {
                open: false,
                editing: None,
                scope,
                bold: false,
                font_size: None,
            }),
            r.status is None,
            !r.capturing,
            r.filter_panel.visible,
            r.mark_panel.visible,
            r.mark_panel.selected@ == Set::<LineKey>::empty(),
            r.mark_panel.selection_anchor is None,
            r.mark_panel.current_line is None,
            r.search_results_panel.visible,
            r.search_results_panel.collapsed_files@ == Set::<u64>::empty(),
            r.search_results_panel.selected_line is None,
            r.regex_table_panel.visible,
            r.regex_table_panel.pages@.len() == 1,
            table_panel::is_fresh_page(r.regex_table_panel.pages@[0], 1),
            r.regex_table_panel.active_page == 0,
            r.regex_table_panel.next_page_id == 2,
    {
        LogdApp {
            tabs: TabList::new(),
            book: FilterBook::new(scope),
            search: SearchBox { history, suggestions: Vec::new(), open: false, index: None },
            search_query: String::new(),
            recent_files,
            language,
            status: None,
            capturing: false,
            filter_panel: FilterPanel::new(),
            mark_panel: MarkPanel::new(),
            search_results_panel: SearchResultsPanel::new(),
            regex_table_panel: RegexTablePanel::new(),
        }
    }

    /// The language.
    pub fn language(&self) -> (r: Language)
        ensures
            r == self.language,
    {
        self.language
    }

    /// Puts a file to the front of the recent ones.
    pub fn remember_file(&mut self, path: u64)
        requires
            old(self).wf(),
        ensures
            final(self).wf(),
            final(self).recent_files@ == settings::remembered_paths(old(self).recent_files@, path),
            *final(self) == (LogdApp { recent_files: final(self).recent_files, ..*old(self) }),
    {
        let mut paths: Vec<u64> = Vec::new();
        let mut i: usize = 0;
        while i < self.recent_files.len()
            invariant
                *self == *old(self),
                i <= self.recent_files@.len(),
                paths@ == self.recent_files@.take(i as int),
            decreases self.recent_files@.len() - i,
        {
            paths.push(self.recent_files[i]);
            i += 1;
        }
        assert(self.recent_files@.take(i as int) =~= self.recent_files@);
        self.recent_files = settings::remember_file(paths, path);
    }

    /// Opens a path. By its extension it is a file of filters or a log. A log that is open
    /// already becomes active and is remembered.
    pub fn open_path(&mut self, path: u64, extension: Option<&str>) -> (r: Opened)
        requires
            old(self).wf(),
        ensures
            final(self).wf(),
            match filters::format_of(
                match extension {
                    Some(extension) => Some(extension@),
                    None => None,
                },
            ) {
                Some(format) => r == Opened::LoadFilters(format) && *final(self) == *old(self),
                None => match tabs::place_of(old(self).tabs.tabs@, path) {
                    Some(index) => {
                        &&& r == Opened::Shown(index as usize)
                        &&& final(self).tabs.tabs == old(self).tabs.tabs
                        &&& final(self).tabs.active == index
                        &&& final(self).recent_files@ == settings::remembered_paths(
                            old(self).recent_files@,
                            path,
                        )
                        &&& *final(self) == (LogdApp {
                            tabs: final(self).tabs,
                            recent_files: final(self).recent_files,
                            ..*old(self)
                        })
                    },
                    None => r == Opened::LoadLog && *final(self) == *old(self),
                },
            },
    {
        match filters::filter_format(extension) {
            Some(format) => Opened::LoadFilters(format),
            None => match self.tabs.open_log(path) {
                Opening::Existing(index) => {
                    self.remember_file(path);
                    Opened::Shown(index)
                },
                Opening::Load => Opened::LoadLog,
            },
        }
    }

    /// Takes over a log that was loaded: it gets a tab, which becomes active, and is
    /// remembered. Where loading failed, that is said.
    pub fn finish_open_log(&mut self, path: u64, title: String, outcome: &Result<(), String>)
        requires
            old(self).wf(),
            tabs::place_of(old(self).tabs.tabs@, path) is None,
        ensures
            final(self).wf(),
            match *outcome {
                Ok(_) => {
                    &&& final(self).tabs.tabs@ == old(self).tabs.tabs@.push(
                        tabs::Tab { path, title },
                    )
                    &&& final(self).tabs.active == old(self).tabs.tabs@.len()
                    &&& final(self).recent_files@ == settings::remembered_paths(
                        old(self).recent_files@,
                        path,
                    )
                    &&& *final(self) == (LogdApp {
                        tabs: final(self).tabs,
                        recent_files: final(self).recent_files,
                        status: None,
                        ..*old(self)
                    })
                },
                Err(error) => {
                    &&& text::maybe(final(self).status) == Some(
                        remark(i18n::translation(Key::Open, old(self).language)@, error@),
                    )
                    &&& *final(self) == (LogdApp { status: final(self).status, ..*old(self) })
                },
            },
    {
        match outcome {
            Ok(_) => {
                self.tabs.add_tab(path, title);
                self.remember_file(path);
                self.status = None;
            },
            Err(error) => {
                self.status =
                Some(text::concat3(i18n::text(Key::Open, self.language), ": ", error));
            },
        }
    }

    /// Makes a tab active, if it is there. Says whether it has to be filtered: where it waits
    /// for that, and where a filter for the current file now means another file.
    pub fn set_active(&mut self, index: usize, waiting: bool) -> (refilter: bool)
        requires
            old(self).wf(),
        ensures
            final(self).wf(),
            final(self).tabs.tabs == old(self).tabs.tabs,
            final(self).tabs.active == if index < old(self).tabs.tabs@.len() {
                index
            } else {
                old(self).tabs.active
            },
            *final(self) == (LogdApp { tabs: final(self).tabs, ..*old(self) }),
            refilter == (index < old(self).tabs.tabs@.len() && (waiting || exists|i: int|
                0 <= i < old(self).book.filters@.len() && (
                #[trigger] old(self).book.filters@[i]).scope == FilterScope::CurrentFile)),
    {
        if !self.tabs.set_active(index) {
            return false;
        }
        waiting || self.book.has_current_file_filter()
    }

    /// Goes to a match in a tab, if the tab is there: whether it is, and whether it has to be
    /// filtered.
    pub fn goto_search_result(&mut self, tab: usize, waiting: bool) -> (r: (bool, bool))
        requires
            old(self).wf(),
        ensures
            final(self).wf(),
            r.0 == (tab < old(self).tabs.tabs@.len()),
            !r.0 ==> !r.1 && *final(self) == *old(self),
            r.0 ==> {
                &&& final(self).tabs.tabs == old(self).tabs.tabs
                &&& final(self).tabs.active == tab
                &&& *final(self) == (LogdApp { tabs: final(self).tabs, ..*old(self) })
                &&& r.1 == (waiting || exists|i: int|
                    0 <= i < old(self).book.filters@.len() && (
                    #[trigger] old(self).book.filters@[i]).scope == FilterScope::CurrentFile)
            },
    {
        if tab >= self.tabs.tabs.len() {
            return (false, false);
        }
        let refilter = self.set_active(tab, waiting);
        (true, refilter)
    }

    /// Takes over what a capture reports. A device that is ready has a log to be opened: its
    /// path and the title of its tab come out.
    pub fn on_live_event(&mut self, event: LiveLogEvent<u64>) -> (r: Option<(u64, String)>)
        requires
            old(self).wf(),
        ensures
            final(self).wf(),
            match event {
                LiveLogEvent::DeviceReady { serial, path } => r is Some && r.unwrap().0 == path
                    && r.unwrap().1@ == "ADB "@ + serial@ && *final(self) == *old(self),
                LiveLogEvent::DeviceStopped => r is None && *final(self) == *old(self),
                LiveLogEvent::CaptureFinished => r is None && *final(self) == (LogdApp {
                    capturing: false,
                    ..*old(self)
                }),
                LiveLogEvent::Error(error) => r is None && *final(self) == (LogdApp {
                    status: Some(error),
                    ..*old(self)
                }),
            },
    {
        match event {
            LiveLogEvent::DeviceReady { serial, path } => {
                Some((path, tabs::device_title(&serial)))
            },
            LiveLogEvent::DeviceStopped => None,
            LiveLogEvent::CaptureFinished => {
                self.capturing = false;
                None
            },
            LiveLogEvent::Error(error) => {
                self.status = Some(error);
                None
            },
        }
    }

    /// Whether device logs are being captured.
    pub fn live_capture_running(&self) -> (r: bool)
        ensures
            r == self.capturing,
    {
        self.capturing
    }

    /// Takes note of how starting a capture went. One that runs already stays.
    pub fn finish_start_capture(&mut self, outcome: Result<(), String>)
        requires
            old(self).wf(),
        ensures
            final(self).wf(),
            old(self).capturing ==> *final(self) == *old(self),
            !old(self).capturing ==> match outcome {
                Ok(_) => {
                    &&& text::maybe(final(self).status) == Some("Starting ADB logcat capture..."@)
                    &&& *final(self) == (LogdApp {
                        capturing: true,
                        status: final(self).status,
                        ..*old(self)
                    })
                },
                Err(error) => *final(self) == (LogdApp { status: Some(error), ..*old(self) }),
            },
    {
        if self.capturing {
            return ;
        }
        match outcome {
            Ok(_) => {
                self.capturing = true;
                self.status = Some("Starting ADB logcat capture...".to_owned());
            },
            Err(error) => {
                self.status = Some(error);
            },
        }
    }

    /// Stops capturing. Says whether there is a capture to be ended.
    pub fn stop_live_capture(&mut self) -> (r: bool)
        requires
            old(self).wf(),
        ensures
            final(self).wf(),
            r == old(self).capturing,
            text::maybe(final(self).status) == Some("ADB logcat capture stopped"@),
            *final(self) == (LogdApp {
                capturing: false,
                status: final(self).status,
                ..*old(self)
            }),
    {
        let running = self.capturing;
        self.capturing = false;
        self.status = Some("ADB logcat capture stopped".to_owned());
        running
    }

    /// Turns capturing over: a running one ends, otherwise one is to be started.
    pub fn toggle_live_capture(&mut self) -> (r: CaptureChange)
        requires
            old(self).wf(),
        ensures
            final(self).wf(),
            old(self).capturing ==> {
                &&& r == CaptureChange::Stop
                &&& text::maybe(final(self).status) == Some("ADB logcat capture stopped"@)
                &&& *final(self) == (LogdApp {
                    capturing: false,
                    status: final(self).status,
                    ..*old(self)
                })
            },
            !old(self).capturing ==> r == CaptureChange::Start && *final(self) == *old(self),
    {
        if self.live_capture_running() {
            self.stop_live_capture();
            CaptureChange::Stop
        } else {
            CaptureChange::Start
        }
    }

    /// Starts to remove the kept device logs. A capture ends first: whether there is one to be
    /// ended comes out.
    pub fn clear_live_log_history(&mut self) -> (stop: bool)
        requires
            old(self).wf(),
        ensures
            final(self).wf(),
            stop == old(self).capturing,
            text::maybe(final(self).status) == Some("Clearing realtime log history..."@),
            *final(self) == (LogdApp {
                capturing: false,
                status: final(self).status,
                ..*old(self)
            }),
    {
        let running = self.capturing;
        self.capturing = false;
        self.status = Some("Clearing realtime log history...".to_owned());
        running
    }

    /// Takes note of how removing the kept device logs went. On success the tabs that show one
    /// of them are closed, and it is said how many files there were. Says whether the active
    /// tab has to be filtered again.
    pub fn finish_clear_history(
        &mut self,
        outcome: Result<usize, String>,
        kept_logs: &Vec<bool>,
    ) -> (refilter: bool)
        requires
            old(self).wf(),
            kept_logs@.len() == old(self).tabs.tabs@.len(),
        ensures
            final(self).wf(),
            match outcome {
                Ok(count) => {
                    &&& final(self).tabs.tabs@ == tabs::unflagged(
                        old(self).tabs.tabs@,
                        kept_logs@,
                        kept_logs@.len(),
                    )
                    &&& final(self).tabs.active == tabs::restored_place(
                        final(self).tabs.tabs@,
                        old(self).tabs.active_path(),
                        old(self).tabs.active as nat,
                    )
                    &&& text::maybe(final(self).status) == Some(cleared_words(count as nat))
                    &&& *final(self) == (LogdApp {
                        tabs: final(self).tabs,
                        status: final(self).status,
                        ..*old(self)
                    })
                    &&& refilter == (final(self).tabs.tabs@.len() > 0 && (final(self).tabs.active
                        != old(self).tabs.active || final(self).tabs.active_path()
                        != old(self).tabs.active_path()))
                },
                Err(error) => !refilter && *final(self) == (LogdApp {
                    status: Some(error),
                    ..*old(self)
                }),
            },
    {
        match outcome {
            Ok(count) => {
                let refilter = self.tabs.close_flagged(kept_logs);
                let ending = if count == 1 {
                    ""
                } else {
                    "s"
                };
                self.status =
                Some(
                    text::concat4(
                        "Cleared ",
                        &text::decimal_text(count as u64),
                        " realtime log file",
                        ending,
                    ),
                );
                refilter
            },
            Err(error) => {
                self.status = Some(error);
                false
            },
        }
    }

    /// Takes note of how loading the active log again went.
    pub fn finish_refresh(&mut self, display: &str, outcome: &Result<(), String>)
        requires
            old(self).wf(),
        ensures
            final(self).wf(),
            text::maybe(final(self).status) == Some(
                remark(
                    i18n::translation(Key::Refresh, old(self).language)@,
                    match *outcome {
                        Ok(_) => display@,
                        Err(error) => error@,
                    },
                ),
            ),
            *final(self) == (LogdApp { status: final(self).status, ..*old(self) }),
    {
        let about: &str = match outcome {
            Ok(_) => display,
            Err(error) => error.as_str(),
        };
        self.status = Some(text::concat3(i18n::text(Key::Refresh, self.language), ": ", about));
    }

    /// Searches for a value in every log. A value that is not blank is remembered. Its terms
    /// become filters and its query is looked for over all files; with a query the panel of
    /// matches is shown. `accepted` says which terms are times and fields. Says whether there
    /// is a query.
    pub fn set_global_search(
        &mut self,
        value: &str,
        accepted: &AcceptedTerms,
        color: u32,
        template: &FilterSpec,
    ) -> (has_search: bool)
        requires
            old(self).wf(),
        ensures
            final(self).wf(),
            ({
                let value = text::trim(value@);
                let wanted = search::expression_of(value, *accepted);
                &&& final(self).search_query@ == wanted.1
                &&& final(self).book.search_filters@.len() == wanted.0.len()
                &&& forall|i: int|
                    0 <= i < wanted.0.len() ==> (
                    #[trigger] final(self).book.search_filters@[i]).text@ == wanted.0[i]
                        && final(self).book.search_filters@[i] == filters::search_filter(
                        final(self).book.search_filters@[i].text,
                        color,
                        *template,
                    )
                &&& final(self).book == (FilterBook {
                    search_filters: final(self).book.search_filters,
                    ..old(self).book
                })
                &&& text::texts(final(self).search.history@) == if value.len() > 0 {
                    search::remembered(
                        text::texts(old(self).search.history@),
                        value,
                        MAX_SEARCH_HISTORY as nat,
                    )
                } else {
                    text::texts(old(self).search.history@)
                }
                &&& has_search == (wanted.1.len() > 0)
            }),
            final(self).search_results_panel.collapsed_files@ == Set::<u64>::empty(),
            final(self).search_results_panel.selected_line is None,
            final(self).search_results_panel.visible == (has_search || old(
                self,
            ).search_results_panel.visible),
            final(self).search == (SearchBox {
                history: final(self).search.history,
                ..old(self).search
            }),
            *final(self) == (LogdApp {
                book: final(self).book,
                search: final(self).search,
                search_query: final(self).search_query,
                search_results_panel: final(self).search_results_panel,
                ..*old(self)
            }),
    {
        let trimmed = text::text_of(&text::trimmed(&text::chars_of(value)));
        if !trimmed.as_str().is_empty() {
            self.search.remember_search(&trimmed);
        }
        let expression = search::parse_search_expression(&trimmed, accepted);
        self.search_query = expression.query;
        self.book.set_search(expression.keywords, color, template);
        let has_search = !self.search_query.as_str().is_empty();
        self.search_results_panel.reset_scroll();
        if has_search {
            self.search_results_panel.set_visible(true);
        }
        has_search
    }

    /// Whether a theme has to be applied: it is not the active one.
    pub fn wants_theme(&self, active: &str, name: &str) -> (r: bool)
        ensures
            r == (active@ != name@),
    {
        !text::same_text(active, name)
    }

    /// Takes over the color of search terms from a theme that was applied. Says whether the
    /// logs have to be drawn in it.
    pub fn set_theme(&mut self, color: u32) -> (restyle: bool)
        requires
            old(self).wf(),
        ensures
            final(self).wf(),
            restyle == (old(self).book.search_filters@.len() > 0),
            final(self).book.search_filters@ == old(self).book.search_filters@.map_values(
                |filter: FilterSpec| FilterSpec { fore: Some(color), ..filter },
            ),
            final(self).book == (FilterBook {
                search_filters: final(self).book.search_filters,
                ..old(self).book
            }),
            *final(self) == (LogdApp { book: final(self).book, ..*old(self) }),
    {
        self.book.recolor_search(color)
    }

    /// Takes over the filters of a file that was loaded, or says why that failed. Says whether
    /// the filters changed.
    pub fn load_filters(
        &mut self,
        format: FilterFormat,
        outcome: Result<(Vec<FilterSpec>, bool), String>,
        save_path: u64,
    ) -> (changed: bool)
        requires
            old(self).wf(),
        ensures
            final(self).wf(),
            changed == outcome is Ok,
            match outcome {
                Ok(loaded) => {
                    &&& final(self).book == (FilterBook {
                        filters: loaded.0,
                        show_only_filtered: loaded.1,
                        save_path: Some(save_path),
                        selected: if loaded.0@.len() > 0 {
                            Some(0usize)
                        } else {
                            None
                        },
                        dirty: false,
                        ..old(self).book
                    })
                    &&& text::maybe(final(self).status) == Some(
                        loaded_words(loaded.0@.len(), old(self).language),
                    )
                    &&& *final(self) == (LogdApp {
                        book: final(self).book,
                        status: final(self).status,
                        ..*old(self)
                    })
                },
                Err(error) => {
                    &&& text::maybe(final(self).status) == Some(
                        remark(format_words(format), error@),
                    )
                    &&& *final(self) == (LogdApp { status: final(self).status, ..*old(self) })
                },
            },
    {
        match outcome {
            Ok((loaded, show_only)) => {
                let count = loaded.len();
                self.book.load_filters(loaded, show_only, save_path);
                self.status =
                Some(
                    text::concat3(
                        i18n::text(Key::Filters, self.language),
                        ": ",
                        &text::decimal_text(count as u64),
                    ),
                );
                true
            },
            Err(error) => {
                let word = match format {
                    FilterFormat::Tat => ".tat",
                    FilterFormat::Logd => ".logd",
                };
                self.status = Some(text::concat3(word, ": ", &error));
                false
            },
        }
    }

    /// The format of a file that was chosen to import filters from. Any other file is refused,
    /// with `word` and the formats that there are.
    pub fn import_filters(&mut self, extension: Option<&str>, word: &str) -> (r: Option<
        FilterFormat,
    >)
        requires
            old(self).wf(),
        ensures
            final(self).wf(),
            r == filters::format_of(
                match extension {
                    Some(extension) => Some(extension@),
                    None => None,
                },
            ),
            r is Some ==> *final(self) == *old(self),
            r is None ==> {
                &&& text::maybe(final(self).status) == Some(remark(word@, ".logd / .tat"@))
                &&& *final(self) == (LogdApp { status: final(self).status, ..*old(self) })
            },
    {
        let format = filters::filter_format(extension);
        if format.is_none() {
            self.status = Some(text::concat3(word, ": ", ".logd / .tat"));
        }
        format
    }

    /// Where filters that were loaded are saved later: those of the native format in their file,
    /// those of the other format beside it, so that it stays as it is.
    pub fn save_target_of(&self, format: FilterFormat, path: u64) -> (r: SaveTarget)
        ensures
            r == match format {
                FilterFormat::Tat => SaveTarget::Beside(path),
                FilterFormat::Logd => SaveTarget::File(path),
            },
    {
        match format {
            FilterFormat::Tat => SaveTarget::Beside(path),
            FilterFormat::Logd => SaveTarget::File(path),
        }
    }

    /// Where the filters are to be saved: in their file, or else beside the active log.
    pub open spec fn target(&self) -> SaveTarget {
        match self.book.save_path {
            Some(path) => SaveTarget::File(path),
            None => match self.tabs.active_path() {
                Some(path) => SaveTarget::Beside(path),
                None => SaveTarget::Ask,
            },
        }
    }

    /// Where the filters are to be saved.
    pub fn save_target(&self) -> (r: SaveTarget)
        requires
            self.wf(),
        ensures
            r == self.target(),
    {
        match self.book.save_path {
            Some(path) => SaveTarget::File(path),
            None => if self.tabs.active < self.tabs.tabs.len() {
                SaveTarget::Beside(self.tabs.tabs[self.tabs.active].path)
            } else {
                SaveTarget::Ask
            },
        }
    }

    /// Takes note of how saving the filters to a file went. Says whether it succeeded.
    pub fn finish_save_filters(
        &mut self,
        path: u64,
        display: &str,
        outcome: &Result<(), String>,
    ) -> (r: bool)
        requires
            old(self).wf(),
        ensures
            final(self).wf(),
            r == (*outcome is Ok),
            text::maybe(final(self).status) == Some(
                remark(
                    i18n::translation(Key::SaveFilter, old(self).language)@,
                    match *outcome {
                        Ok(_) => display@,
                        Err(error) => error@,
                    },
                ),
            ),
            final(self).book == if r {
                FilterBook { save_path: Some(path), dirty: false, ..old(self).book }
            } else {
                old(self).book
            },
            *final(self) == (LogdApp {
                book: final(self).book,
                status: final(self).status,
                ..*old(self)
            }),
    {
        let (about, saved): (&str, bool) = match outcome {
            Ok(_) => (display, true),
            Err(error) => (error.as_str(), false),
        };
        self.book.saved(path, saved);
        self.status = Some(text::concat3(i18n::text(Key::SaveFilter, self.language), ": ", about));
        saved
    }

    /// Shows or hides the panel of filters.
    pub fn show_filter_panel(&mut self, show: bool)
        requires
            old(self).wf(),
        ensures
            final(self).wf(),
            *final(self) == (LogdApp {
                filter_panel: FilterPanel { visible: show },
                ..*old(self)
            }),
    {
        self.filter_panel.set_visible(show);
    }

    /// Shows or hides the panel of matches.
    pub fn show_search_results(&mut self, show: bool)
        requires
            old(self).wf(),
        ensures
            final(self).wf(),
            *final(self) == (LogdApp {
                search_results_panel: SearchResultsPanel {
                    visible: show,
                    ..old(self).search_results_panel
                },
                ..*old(self)
            }),
    {
        self.search_results_panel.set_visible(show);
    }

    /// Shows or hides the panel of marks.
    pub fn show_mark_panel(&mut self, show: bool)
        requires
            old(self).wf(),
        ensures
            final(self).wf(),
            *final(self) == (LogdApp {
                mark_panel: MarkPanel { visible: show, ..old(self).mark_panel },
                ..*old(self)
            }),
    {
        self.mark_panel.set_visible(show);
    }

    /// Shows or hides the panel of tables. Says whether a table is to be extracted anew: where
    /// it is shown.
    pub fn show_regex_table(&mut self, show: bool) -> (refresh: bool)
        requires
            old(self).wf(),
        ensures
            final(self).wf(),
            refresh == show,
            *final(self) == (LogdApp {
                regex_table_panel: RegexTablePanel { visible: show, ..old(self).regex_table_panel },
                ..*old(self)
            }),
    {
        self.regex_table_panel.set_visible(show);
        show
    }

    /// The application with the editor open for a new filter and its panel shown.
    pub open spec fn adding(&self, scope: FilterScope) -> LogdApp {
        LogdApp {
            book: FilterBook {
                editor: filters::FilterEditor {
                    open: true,
                    editing: None,
                    scope,
                    bold: false,
                    font_size: None,
                },
                ..self.book
            },
            filter_panel: FilterPanel { visible: true },
            ..*self
        }
    }

    /// Opens the editor for a new filter and shows its panel.
    pub fn begin_add_filter(&mut self, scope: FilterScope) -> (r: EditorFields)
        requires
            old(self).wf(),
        ensures
            final(self).wf(),
            filters::is_blank(r),
            *final(self) == old(self).adding(scope),
    {
        let fields = self.book.begin_add_filter(scope);
        self.show_filter_panel(true);
        fields
    }

    /// Opens the editor for a new filter with the selected text and shows its panel, unless the
    /// text is blank.
    pub fn begin_add_filter_from_selection(
        &mut self,
        selected: Option<&str>,
        scope: FilterScope,
    ) -> (r: Option<EditorFields>)
        requires
            old(self).wf(),
        ensures
            final(self).wf(),
            r is Some == (selected is Some && text::trim(selected.unwrap()@).len() > 0),
            match r {
                Some(fields) => {
                    &&& fields.text@ == text::trim(selected.unwrap()@)
                    &&& fields.description@.len() == 0
                    &&& fields.fore is None
                    &&& fields.back is None
                    &&& *final(self) == old(self).adding(scope)
                },
                None => *final(self) == *old(self),
            },
    {
        let fields = self.book.begin_add_filter_from_selection(selected, scope);
        if fields.is_some() {
            self.show_filter_panel(true);
        }
        fields
    }

    /// What a command asks of the shell, and what it does by itself. `scope` is the one that
    /// new filters start with.
    pub fn dispatch(&mut self, command: MenuCommand, scope: FilterScope) -> (r: AppAction)
        requires
            old(self).wf(),
        ensures
            final(self).wf(),
            dispatched(*old(self), command, scope, *final(self), r),
    {
        match command {
            MenuCommand::Open => AppAction::PromptOpen,
            MenuCommand::OpenRecent(path) => AppAction::OpenPath(path),
            MenuCommand::ClearRecentFiles => {
                self.recent_files = Vec::new();
                AppAction::SaveRecentFiles
            },
            MenuCommand::ClearLiveLogHistory => {
                let stop = self.clear_live_log_history();
                AppAction::ClearHistory { stop }
            },
            MenuCommand::Refresh => if self.tabs.active < self.tabs.tabs.len() {
                AppAction::Reload(self.tabs.tabs[self.tabs.active].path)
            } else {
                AppAction::Nothing
            },
            MenuCommand::Export => if self.tabs.active < self.tabs.tabs.len() {
                AppAction::Export
            } else {
                AppAction::Nothing
            },
            MenuCommand::SaveEditedCopy => if self.tabs.active < self.tabs.tabs.len() {
                AppAction::SaveEditedCopy
            } else {
                AppAction::Nothing
            },
            MenuCommand::ImportFilters => AppAction::PromptImport,
            MenuCommand::SetEncoding(encoding) => if self.tabs.active < self.tabs.tabs.len() {
                AppAction::SetEncoding(encoding)
            } else {
                AppAction::Nothing
            },
            MenuCommand::SetTheme(theme) => AppAction::SetTheme(theme),
            MenuCommand::CopySelection => if self.tabs.active < self.tabs.tabs.len() {
                AppAction::CopySelection
            } else {
                AppAction::Nothing
            },
            MenuCommand::ToggleFilters => {
                let visible = self.filter_panel.visible();
                self.show_filter_panel(!visible);
                AppAction::LayoutChanged
            },
            MenuCommand::ToggleSearchResults => {
                let visible = self.search_results_panel.visible();
                self.show_search_results(!visible);
                AppAction::LayoutChanged
            },
            MenuCommand::AddFilter => {
                let fields = self.begin_add_filter(scope);
                AppAction::FillEditor(fields)
            },
            MenuCommand::EditFilter => match self.book.begin_edit_filter() {
                Some(fields) => AppAction::FillEditor(fields),
                None => AppAction::Nothing,
            },
            MenuCommand::DeleteFilter => if self.book.delete_selected_filter() {
                AppAction::FiltersChanged
            } else {
                AppAction::Nothing
            },
            MenuCommand::SaveFilters => AppAction::SaveFilters(self.save_target()),
            MenuCommand::ToggleLanguage => {
                self.language = self.language.toggle();
                AppAction::LanguageChanged
            },
        }
    }

    /// Does what a key stands for. There is nothing in the result where the key is not for the
    /// window.
    pub fn on_key(&mut self, held: HeldKeys, key: &str, scope: FilterScope) -> (r: Option<AppAction>)
        requires
            old(self).wf(),
        ensures
            final(self).wf(),
            ({
                let shortcut = if !held.primary || held.alt || held.function {
                    None
                } else {
                    menus::shortcut_of(key@, held.shift, old(self).tabs.tabs@.len() > 0)
                };
                match shortcut {
                    Some(shortcut) => r is Some && shortened(
                        *old(self),
                        shortcut,
                        scope,
                        *final(self),
                        r.unwrap(),
                    ),
                    None => r is None && *final(self) == *old(self),
                }
            }),
    {
        let has_tabs = self.tabs.tabs.len() > 0;
        let shortcut = match menus::on_key(held, key, has_tabs) {
            Some(shortcut) => shortcut,
            None => {
                return None;
            },
        };
        match shortcut {
            Shortcut::Command(command) => Some(self.dispatch(command, scope)),
            Shortcut::FocusSearch => Some(AppAction::FocusSearch),
            Shortcut::AddFilterFromSelection => Some(AppAction::AddFromSelection),
            Shortcut::ToggleShowOnly => {
                let only = !self.book.show_only_filtered;
                self.book.set_show_only(only);
                Some(AppAction::ShowOnlyChanged)
            },
            Shortcut::NextTab => match self.tabs.neighbour(true) {
                Some(index) => {
                    self.tabs.set_active(index);
                    Some(AppAction::Activated(index))
                },
                None => Some(AppAction::Nothing),
            },
            Shortcut::PreviousTab => match self.tabs.neighbour(false) {
                Some(index) => {
                    self.tabs.set_active(index);
                    Some(AppAction::Activated(index))
                },
                None => Some(AppAction::Nothing),
            },
            Shortcut::CloseTab => {
                let active = self.tabs.active;
                let refilter = self.tabs.close_tab(active);
                Some(AppAction::Closed { refilter })
            },
        }
    }
}

/// There is an active log.
pub open spec fn has_view(app: LogdApp) -> bool {
    app.tabs.active < app.tabs.tabs@.len()
}

/// `after` and `action` are what a command makes of `before`.
pub open spec fn dispatched(
    before: LogdApp,
    command: MenuCommand,
    scope: FilterScope,
    after: LogdApp,
    action: AppAction,
) -> bool {
    match command {
        MenuCommand::Open => after == before && action is PromptOpen,
        MenuCommand::OpenRecent(path) => after == before && action == AppAction::OpenPath(path),
        MenuCommand::ClearRecentFiles => {
            &&& action is SaveRecentFiles
            &&& after.recent_files@.len() == 0
            &&& after == (LogdApp { recent_files: after.recent_files, ..before })
        },
        MenuCommand::ClearLiveLogHistory => {
            &&& action == (AppAction::ClearHistory { stop: before.capturing })
            &&& text::maybe(after.status) == Some("Clearing realtime log history..."@)
            &&& after == (LogdApp { capturing: false, status: after.status, ..before })
        },
        MenuCommand::Refresh => after == before && action == match before.tabs.active_path() {
            Some(path) => AppAction::Reload(path),
            None => AppAction::Nothing,
        },
        MenuCommand::Export => after == before && action == if has_view(before) {
            AppAction::Export
        } else {
            AppAction::Nothing
        },
        MenuCommand::SaveEditedCopy => after == before && action == if has_view(before) {
            AppAction::SaveEditedCopy
        } else {
            AppAction::Nothing
        },
        MenuCommand::ImportFilters => after == before && action is PromptImport,
        MenuCommand::SetEncoding(encoding) => after == before && action == if has_view(before) {
            AppAction::SetEncoding(encoding)
        } else {
            AppAction::Nothing
        },
        MenuCommand::SetTheme(theme) => after == before && action == AppAction::SetTheme(theme),
        MenuCommand::CopySelection => after == before && action == if has_view(before) {
            AppAction::CopySelection
        } else {
            AppAction::Nothing
        },
        MenuCommand::ToggleFilters => {
            &&& action is LayoutChanged
            &&& after == (LogdApp {
                filter_panel: FilterPanel { visible: !before.filter_panel.visible },
                ..before
            })
        },
        MenuCommand::ToggleSearchResults => {
            &&& action is LayoutChanged
            &&& after == (LogdApp {
                search_results_panel: SearchResultsPanel {
                    visible: !before.search_results_panel.visible,
                    ..before.search_results_panel
                },
                ..before
            })
        },
        MenuCommand::AddFilter => {
            &&& action is FillEditor
            &&& filters::is_blank(action->FillEditor_0)
            &&& after == before.adding(scope)
        },
        MenuCommand::EditFilter => match before.book.selected {
            Some(index) => {
                let filter = before.book.filters@[index as int];
                &&& action == AppAction::FillEditor(
                    EditorFields {
                        text: filter.text,
                        description: filter.description,
                        fore: filter.fore,
                        back: filter.back,
                    },
                )
                &&& after == (LogdApp {
                    book: FilterBook {
                        editor: filters::FilterEditor {
                            open: true,
                            editing: Some(index),
                            scope: filter.scope,
                            bold: filter.bold,
                            font_size: filter.font_size,
                        },
                        ..before.book
                    },
                    ..before
                })
            },
            None => after == before && action is Nothing,
        },
        MenuCommand::DeleteFilter => match before.book.selected {
            Some(index) => {
                &&& action is FiltersChanged
                &&& after.book.filters@ == before.book.filters@.remove(index as int)
                &&& after.book.selected == if index + 1 < before.book.filters@.len() {
                    Some(index)
                } else if before.book.filters@.len() > 1 {
                    Some((before.book.filters@.len() - 2) as usize)
                } else {
                    None
                }
                &&& after == (LogdApp {
                    book: FilterBook {
                        filters: after.book.filters,
                        selected: after.book.selected,
                        dirty: true,
                        editor: filters::FilterEditor {
                            open: false,
                            editing: None,
                            ..before.book.editor
                        },
                        ..before.book
                    },
                    ..before
                })
            },
            None => after == before && action is Nothing,
        },
        MenuCommand::SaveFilters => after == before && action == AppAction::SaveFilters(
            before.target(),
        ),
        MenuCommand::ToggleLanguage => {
            &&& action is LanguageChanged
            &&& after == (LogdApp { language: i18n::toggled(before.language), ..before })
        },
    }
}

/// `after` and `action` are what a shortcut makes of `before`.
pub open spec fn shortened(
    before: LogdApp,
    shortcut: Shortcut,
    scope: FilterScope,
    after: LogdApp,
    action: AppAction,
) -> bool {
    match shortcut {
        Shortcut::Command(command) => dispatched(before, command, scope, after, action),
        Shortcut::FocusSearch => after == before && action is FocusSearch,
        Shortcut::AddFilterFromSelection => after == before && action is AddFromSelection,
        Shortcut::ToggleShowOnly => {
            &&& action is ShowOnlyChanged
            &&& after == (LogdApp {
                book: FilterBook {
                    show_only_filtered: !before.book.show_only_filtered,
                    dirty: true,
                    ..before.book
                },
                ..before
            })
        },
        Shortcut::NextTab => {
            &&& action is Activated
            &&& action->Activated_0 == (before.tabs.active + 1) % (before.tabs.tabs@.len() as int)
            &&& after == (LogdApp {
                tabs: TabList { active: action->Activated_0, ..before.tabs },
                ..before
            })
        },
        Shortcut::PreviousTab => {
            &&& action is Activated
            &&& action->Activated_0 == (before.tabs.active + before.tabs.tabs@.len() - 1) % (
            before.tabs.tabs@.len() as int)
            &&& after == (LogdApp {
                tabs: TabList { active: action->Activated_0, ..before.tabs },
                ..before
            })
        },
        Shortcut::CloseTab => {
            let rest = before.tabs.tabs@.remove(before.tabs.active as int);
            &&& action is Closed
            &&& after == (LogdApp { tabs: after.tabs, ..before })
            &&& has_view(before) ==> {
                &&& after.tabs.tabs@ == rest
                &&& action->refilter == (rest.len() > 0)
                &&& after.tabs.active == if rest.len() == 0 {
                    0
                } else if before.tabs.active < rest.len() {
                    before.tabs.active as int
                } else {
                    rest.len() - 1
                }
            }
            &&& !has_view(before) ==> after.tabs == before.tabs && !action->refilter
        },
    }
}

/// A switch that is used twice leads back: the two panels that have a command, and the language.
pub proof fn switching_twice_changes_nothing(
    before: LogdApp,
    between: LogdApp,
    after: LogdApp,
    command: MenuCommand,
    scope: FilterScope,
    first: AppAction,
    second: AppAction,
)
    requires
        command is ToggleFilters || command is ToggleSearchResults || command is ToggleLanguage,
        dispatched(before, command, scope, between, first),
        dispatched(between, command, scope, after, second),
    ensures
        after == before,
{
}

/// No command but one that is about the filters changes them, and none touches the terms of the
/// search or the history.
pub proof fn commands_keep_the_filters(
    before: LogdApp,
    after: LogdApp,
    command: MenuCommand,
    scope: FilterScope,
    action: AppAction,
)
    requires
        dispatched(before, command, scope, after, action),
    ensures
        !(command is DeleteFilter) ==> after.book.filters == before.book.filters,
        !(command is DeleteFilter) ==> after.book.dirty == before.book.dirty,
        after.book.search_filters == before.book.search_filters,
        after.search == before.search,
        after.search_query == before.search_query,
        after.tabs == before.tabs,
{
}

/// The next tab is the one to the right, and the first one follows the last; going back from
/// there leads to the tab that was active, with nothing changed.
pub proof fn the_tab_before_the_next_is_the_active_one(
    before: LogdApp,
    between: LogdApp,
    after: LogdApp,
    scope: FilterScope,
    first: AppAction,
    second: AppAction,
)
    requires
        has_view(before),
        shortened(before, Shortcut::NextTab, scope, between, first),
        shortened(between, Shortcut::PreviousTab, scope, after, second),
    ensures
        between.tabs.active == if before.tabs.active + 1 < before.tabs.tabs@.len() {
            before.tabs.active + 1
        } else {
            0
        },
        between.tabs.tabs == before.tabs.tabs,
        after == before,
{
    let count = before.tabs.tabs@.len() as int;
    let active = before.tabs.active as int;
    if active + 1 < count {
        vstd::arithmetic::div_mod::lemma_small_mod((active + 1) as nat, count as nat);
        vstd::arithmetic::div_mod::lemma_mod_add_multiples_vanish(active, count);
        vstd::arithmetic::div_mod::lemma_small_mod(active as nat, count as nat);
        assert((active + 1 + count - 1) % count == active);
    } else {
        vstd::arithmetic::div_mod::lemma_mod_self_0(count);
        vstd::arithmetic::div_mod::lemma_small_mod((count - 1) as nat, count as nat);
        assert((0 + count - 1) % count == active);
    }
}

/// Deleting the selected filter takes out that one: those before it stay where they are, those
/// behind it move up by one. Selected is then the one that followed, or the last one.
pub proof fn a_deleted_filter_leaves_the_others(
    before: LogdApp,
    after: LogdApp,
    scope: FilterScope,
    action: AppAction,
    index: usize,
    i: int,
)
    requires
        before.book.wf(),
        before.book.selected == Some(index),
        dispatched(before, MenuCommand::DeleteFilter, scope, after, action),
    ensures
        after.book.filters@.len() == before.book.filters@.len() - 1,
        0 <= i < index ==> after.book.filters@[i] == before.book.filters@[i],
        index <= i < after.book.filters@.len() ==> after.book.filters@[i]
            == before.book.filters@[i + 1],
        after.book.selected == if index < after.book.filters@.len() {
            Some(index)
        } else if after.book.filters@.len() > 0 {
            Some((after.book.filters@.len() - 1) as usize)
        } else {
            None
        },
        after.book.dirty,
        action is FiltersChanged,
        after.tabs == before.tabs,
{
}

/// What works on the log that is shown does nothing where none is shown, and asks for exactly
/// that work where one is.
pub proof fn work_on_a_log_needs_one(
    before: LogdApp,
    after: LogdApp,
    command: MenuCommand,
    scope: FilterScope,
    action: AppAction,
)
    requires
        command is Export || command is SaveEditedCopy || command is CopySelection
            || command is SetEncoding,
        dispatched(before, command, scope, after, action),
    ensures
        after == before,
        before.tabs.active >= before.tabs.tabs@.len() <==> action is Nothing,
        !(action is Nothing) ==> (command is Export <==> action is Export),
        !(action is Nothing) ==> (command is SaveEditedCopy <==> action is SaveEditedCopy),
        !(action is Nothing) ==> (command is CopySelection <==> action is CopySelection),
        !(action is Nothing) && command is SetEncoding ==> action == AppAction::SetEncoding(
            command->SetEncoding_0,
        ),
{
}

/// Closing the active tab takes out that one: those before it stay where they are, those behind
/// it move up by one. Active is then the one that followed, or the last one.
pub proof fn a_closed_tab_leaves_the_others(
    before: LogdApp,
    after: LogdApp,
    scope: FilterScope,
    action: AppAction,
    i: int,
)
    requires
        before.tabs.active < before.tabs.tabs@.len(),
        shortened(before, Shortcut::CloseTab, scope, after, action),
    ensures
        after.tabs.tabs@.len() == before.tabs.tabs@.len() - 1,
        0 <= i < before.tabs.active ==> after.tabs.tabs@[i] == before.tabs.tabs@[i],
        before.tabs.active <= i < after.tabs.tabs@.len() ==> after.tabs.tabs@[i]
            == before.tabs.tabs@[i + 1],
        after.tabs.tabs@.len() == 0 ==> after.tabs.active == 0,
        after.tabs.tabs@.len() > 0 ==> after.tabs.active < after.tabs.tabs@.len(),
        before.tabs.active < after.tabs.tabs@.len() ==> after.tabs.active == before.tabs.active,
        after.tabs.tabs@.len() == before.tabs.active && before.tabs.active > 0 ==> after.tabs.active
            == before.tabs.active - 1,
        after.book == before.book,
{
}

/// One file is spoken of as one, any other number of files as several.
pub proof fn one_file_is_not_several(count: nat)
    ensures
        count == 1 ==> cleared_words(count) == "Cleared "@ + text::decimal(1)
            + " realtime log file"@,
        count != 1 ==> cleared_words(count) == "Cleared "@ + text::decimal(count)
            + " realtime log files"@,
{
    reveal_strlit("");
    reveal_strlit("s");
    reveal_strlit(" realtime log file");
    reveal_strlit(" realtime log files");
    assert(" realtime log file"@ + "s"@ =~= " realtime log files"@);
    if count == 1 {
        assert(cleared_words(count) =~= "Cleared "@ + text::decimal(1) + " realtime log file"@);
    } else {
        assert(cleared_words(count) =~= "Cleared "@ + text::decimal(count)
            + " realtime log files"@);
    }
}

} // verus!
