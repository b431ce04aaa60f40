//! Filters: the list, the editor for one of them, and which of them apply to which
//! tab.

use crate::i18n;
use crate::i18n::{Key, Language};
use crate::text;
use vstd::prelude::*;

verus! {

/// What of a matching line a filter marks.
#[derive(Clone, Copy, Debug, PartialEq, Eq, Structural)]
pub enum HighlightMode {
    Field,
    Line,
}

/// Where a filter applies.
#[derive(Clone, Copy, Debug, PartialEq, Eq, Structural)]
pub enum FilterScope {
    CurrentFile,
    AllFiles,
}

/// A filter. `origin` finds again what else the matching engine keeps of it.
#[derive(Debug)]
pub struct FilterSpec {
    pub origin: u64,
    pub text: String,
    pub description: String,
    pub enabled: bool,
    pub excluding: bool,
    pub mode: HighlightMode,
    pub regex: bool,
    pub case_sensitive: bool,
    pub fore: Option<u32>,
    pub back: Option<u32>,
    pub bold: bool,
    pub italic: bool,
    pub font_size: Option<u16>,
    pub scope: FilterScope,
}

impl Clone for FilterSpec {
    fn clone(&self) -> (r: FilterSpec)
        ensures
            r == *self,
    {
        FilterSpec {
            origin: self.origin,
            text: self.text.clone(),
            description: self.description.clone(),
            enabled: self.enabled,
            excluding: self.excluding,
            mode: self.mode,
            regex: self.regex,
            case_sensitive: self.case_sensitive,
            fore: self.fore,
            back: self.back,
            bold: self.bold,
            italic: self.italic,
            font_size: self.font_size,
            scope: self.scope,
        }
    }
}

/// The other mode.
pub open spec fn other_mode(mode: HighlightMode) -> HighlightMode {
    match mode {
        HighlightMode::Field => HighlightMode::Line,
        HighlightMode::Line => HighlightMode::Field,
    }
}

/// The other scope.
pub open spec fn other_scope(scope: FilterScope) -> FilterScope {
    match scope {
        FilterScope::CurrentFile => FilterScope::AllFiles,
        FilterScope::AllFiles => FilterScope::CurrentFile,
    }
}

/// The other scope.
pub fn toggled_scope(scope: FilterScope) -> (r: FilterScope)
    ensures
        r == other_scope(scope),
{
    match scope {
        FilterScope::CurrentFile => FilterScope::AllFiles,
        FilterScope::AllFiles => FilterScope::CurrentFile,
    }
}

/// The key of the name of a scope.
pub open spec fn scope_key(scope: FilterScope) -> Key {
    match scope {
        FilterScope::CurrentFile => Key::FilterCurrentFile,
        FilterScope::AllFiles => Key::FilterAllFiles,
    }
}

/// The name of a scope.
pub fn filter_scope_label(scope: FilterScope, lang: Language) -> (r: &'static str)
    ensures
        r@ == i18n::translation(scope_key(scope), lang)@,
{
    match scope {
        FilterScope::CurrentFile => i18n::text(Key::FilterCurrentFile, lang),
        FilterScope::AllFiles => i18n::text(Key::FilterAllFiles, lang),
    }
}

/// The font size that follows in the round of sizes.
pub open spec fn following_size(size: Option<u16>) -> Option<u16> {
    match size {
        None => Some(12),
        Some(12) => Some(14),
        Some(14) => Some(16),
        Some(16) => Some(18),
        Some(18) => None,
        Some(_) => Some(12),
    }
}

/// The font size that follows in the round of sizes.
pub fn next_filter_font_size(size: Option<u16>) -> (r: Option<u16>)
    ensures
        r == following_size(size),
{
    match size {
        None => Some(12),
        Some(12) => Some(14),
        Some(14) => Some(16),
        Some(16) => Some(18),
        Some(18) => None,
        Some(_) => Some(12),
    }
}

/// Five steps through the font sizes lead back to where they began, from the default size and
/// from each size that the round holds.
pub proof fn font_sizes_come_round(size: Option<u16>)
    requires
        size is None || size == Some(12u16) || size == Some(14u16) || size == Some(16u16) || size
            == Some(18u16),
    ensures
        following_size(
            following_size(following_size(following_size(following_size(size)))),
        ) == size,
{
}

/// A filter as it applies to a tab: one for the current file does nothing elsewhere.
pub open spec fn filter_for_tab(filter: FilterSpec, tab: nat, active: nat) -> FilterSpec {
    if filter.scope == FilterScope::CurrentFile && tab != active {
        FilterSpec { enabled: false, ..filter }
    } else {
        filter
    }
}

/// The filters that apply to a tab: those that are configured, and behind them those of the
/// search.
pub open spec fn tab_filters(
    filters: Seq<FilterSpec>,
    search: Seq<FilterSpec>,
    tab: nat,
    active: nat,
) -> Seq<FilterSpec> {
    filters.map_values(|filter: FilterSpec| filter_for_tab(filter, tab, active)) + search
}

/// A filter whose matches are listed over all files.
pub open spec fn lists_all_files(filter: FilterSpec, active: bool) -> bool {
    active && !filter.excluding && filter.scope == FilterScope::AllFiles
}

/// What changes in a filter.
#[derive(Clone, Copy, Debug, PartialEq, Eq, Structural)]
pub enum FilterToggle {
    Enabled(bool),
    Excluding,
    Mode,
    Regex,
    CaseSensitive,
    Scope,
}

/// A filter after a change.
pub open spec fn changed_filter(filter: FilterSpec, toggle: FilterToggle) -> FilterSpec {
    match toggle {
        FilterToggle::Enabled(enabled) => FilterSpec { enabled, ..filter },
        FilterToggle::Excluding => FilterSpec { excluding: !filter.excluding, ..filter },
        FilterToggle::Mode => FilterSpec { mode: other_mode(filter.mode), ..filter },
        FilterToggle::Regex => FilterSpec { regex: !filter.regex, ..filter },
        FilterToggle::CaseSensitive => FilterSpec {
            case_sensitive: !filter.case_sensitive,
            ..filter
        },
        FilterToggle::Scope => FilterSpec { scope: other_scope(filter.scope), ..filter },
    }
}

/// Every switch of a filter that is not set to a value leads back when it is used twice.
pub proof fn toggling_a_filter_twice_changes_nothing(filter: FilterSpec, toggle: FilterToggle)
    requires
        !(toggle is Enabled),
    ensures
        changed_filter(changed_filter(filter, toggle), toggle) == filter,
{
}

/// What the editor holds besides its two texts.
#[derive(Clone, Copy, Debug, PartialEq, Eq, Structural)]
pub struct FilterEditor {
    pub open: bool,
    pub editing: Option<usize>,
    pub scope: FilterScope,
    pub bold: bool,
    pub font_size: Option<u16>,
}

/// What was put into the editor.
pub struct FilterInput {
    pub text: String,
    pub description: String,
    pub fore: Option<u32>,
    pub back: Option<u32>,
}

/// What the editor is to be filled with.
#[derive(Debug)]
pub struct EditorFields {
    pub text: String,
    pub description: String,
    pub fore: Option<u32>,
    pub back: Option<u32>,
}

/// What a new filter starts with: no texts and no colors.
pub open spec fn is_blank(fields: EditorFields) -> bool {
    &&& fields.text@.len() == 0
    &&& fields.description@.len() == 0
    &&& fields.fore is None
    &&& fields.back is None
}

/// The kinds of files that hold filters.
#[derive(Clone, Copy, Debug, PartialEq, Eq, Structural)]
pub enum FilterFormat {
    Tat,
    Logd,
}

/// The filters.
pub struct FilterBook {
    pub filters: Vec<FilterSpec>,
    /// The terms of the search in the title bar. They apply to every tab and are never saved.
    pub search_filters: Vec<FilterSpec>,
    pub show_only_filtered: bool,
    /// The file that the filters are saved to.
    pub save_path: Option<u64>,
    /// There is something to save.
    pub dirty: bool,
    /// It is being asked whether to save.
    pub prompt_open: bool,
    pub selected: Option<usize>,
    pub editor: FilterEditor,
}

/// The filter of a new search term.
pub open spec fn search_filter(keyword: String, color: u32, template: FilterSpec) -> FilterSpec {
    FilterSpec { text: keyword, mode: HighlightMode::Field, fore: Some(color), ..template }
}

/// `r` is the filter that the editor makes of another: with the texts and colors that were
/// put in, and everything else as before.
pub open spec fn composed_filter(
    base: FilterSpec,
    input: FilterInput,
    editor: FilterEditor,
    r: FilterSpec,
) -> bool {
    &&& r.text@ == text::trim(input.text@)
    &&& r.description@ == text::trim(input.description@)
    &&& r == (FilterSpec {
        text: r.text,
        description: r.description,
        fore: input.fore,
        back: input.back,
        scope: editor.scope,
        bold: editor.bold,
        font_size: editor.font_size,
        ..base
    })
}

/// The filter that the editor makes of another.
fn compose_filter(base: FilterSpec, input: &FilterInput, editor: FilterEditor) -> (r: FilterSpec)
    ensures
        composed_filter(base, *input, editor, r),
{
    let mut filter = base;
    filter.text = text::text_of(&text::trimmed(&text::chars_of(&input.text)));
    filter.description = text::text_of(&text::trimmed(&text::chars_of(&input.description)));
    filter.fore = input.fore;
    filter.back = input.back;
    filter.scope = editor.scope;
    filter.bold = editor.bold;
    filter.font_size = editor.font_size;
    filter
}

impl FilterBook {
    /// The selected filter is there.
    pub open spec fn wf(&self) -> bool {
        self.selected matches Some(index) ==> index < self.filters@.len()
    }

    /// No filters yet. `scope` is the one that new filters start with.
    pub fn new(scope: FilterScope) -> (r: FilterBook)
        ensures
            r.wf(),
            r.filters@.len() == 0,
            r.search_filters@.len() == 0,
            !r.show_only_filtered,
            r.save_path is None,
            !r.dirty,
            !r.prompt_open,
            r.selected is None,
            r.editor == (FilterEditor {
                open: false,
                editing: None,
                scope,
                bold: false,
                font_size: None,
            }),
    {
        FilterBook {
            filters: Vec::new(),
            search_filters: Vec::new(),
            show_only_filtered: false,
            save_path: None,
            dirty: false,
            prompt_open: false,
            selected: None,
            editor: FilterEditor {
                open: false,
                editing: None,
                scope,
                bold: false,
                font_size: None,
            },
        }
    }

    /// The filters that apply to a tab.
    pub fn filters_for_tab(&self, tab: usize, active: usize) -> (r: Vec<FilterSpec>)
        ensures
            r@ == tab_filters(self.filters@, self.search_filters@, tab as nat, active as nat),
    {
        let ghost configured = self.filters@.map_values(
            |filter: FilterSpec| filter_for_tab(filter, tab as nat, active as nat),
        );
        let mut out: Vec<FilterSpec> = Vec::new();
        let mut i: usize = 0;
        while i < self.filters.len()
            invariant
                i <= self.filters@.len(),
                configured == self.filters@.map_values(
                    |filter: FilterSpec| filter_for_tab(filter, tab as nat, active as nat),
                ),
                out@ == configured.take(i as int),
            decreases self.filters@.len() - i,
        {
            let mut filter = self.filters[i].clone();
            if filter.scope == FilterScope::CurrentFile && tab != active {
                filter.enabled = false;
            }
            out.push(filter);
            assert(configured.take(i + 1) =~= configured.take(i as int).push(
                configured[i as int],
            ));
            i += 1;
        }
        assert(configured.take(i as int) =~= configured);
        let mut j: usize = 0;
        assert(out@ =~= configured + self.search_filters@.take(0));
        while j < self.search_filters.len()
            invariant
                j <= self.search_filters@.len(),
                out@ == configured + self.search_filters@.take(j as int),
            decreases self.search_filters@.len() - j,
        {
            out.push(self.search_filters[j].clone());
            assert(configured + self.search_filters@.take(j + 1) =~= (configured
                + self.search_filters@.take(j as int)).push(self.search_filters@[j as int]));
            j += 1;
        }
        assert(self.search_filters@.take(j as int) =~= self.search_filters@);
        out
    }

    /// Whether there are matches to be listed over all files. `active` says of each filter
    /// whether it takes part in matching.
    pub fn has_multi_file_filter_results(&self, active: &Vec<bool>) -> (r: bool)
        requires
            active@.len() == self.filters@.len(),
        ensures
            r == exists|i: int|
                0 <= i < self.filters@.len() && lists_all_files(
                    #[trigger] self.filters@[i],
                    active@[i],
                ),
    {
        let mut i: usize = 0;
        while i < self.filters.len()
            invariant
                active@.len() == self.filters@.len(),
                i <= self.filters@.len(),
                forall|k: int|
                    0 <= k < i ==> !lists_all_files(#[trigger] self.filters@[k], active@[k]),
            decreases self.filters@.len() - i,
        {
            if active[i] && !self.filters[i].excluding && self.filters[i].scope
                == FilterScope::AllFiles {
                assert(lists_all_files(self.filters@[i as int], active@[i as int]));
                return true;
            }
            i += 1;
        }
        false
    }

    /// Whether some filter applies to the current file only.
    pub fn has_current_file_filter(&self) -> (r: bool)
        ensures
            r == exists|i: int|
                0 <= i < self.filters@.len() && (#[trigger] self.filters@[i]).scope
                    == FilterScope::CurrentFile,
    {
        let mut i: usize = 0;
        while i < self.filters.len()
            invariant
                i <= self.filters@.len(),
                forall|k: int|
                    0 <= k < i ==> (#[trigger] self.filters@[k]).scope != FilterScope::CurrentFile,
            decreases self.filters@.len() - i,
        {
            if self.filters[i].scope == FilterScope::CurrentFile {
                assert(self.filters@[i as int].scope == FilterScope::CurrentFile);
                return true;
            }
            i += 1;
        }
        false
    }

    /// Whether there are filters.
    pub fn has_filters(&self) -> (r: bool)
        ensures
            r == (self.filters@.len() > 0),
    {
        self.filters.len() > 0
    }

    /// Whether every filter is switched on.
    pub fn all_filters_enabled(&self) -> (r: bool)
        ensures
            r == forall|i: int|
                0 <= i < self.filters@.len() ==> (#[trigger] self.filters@[i]).enabled,
    {
        let mut i: usize = 0;
        while i < self.filters.len()
            invariant
                i <= self.filters@.len(),
                forall|k: int| 0 <= k < i ==> (#[trigger] self.filters@[k]).enabled,
            decreases self.filters@.len() - i,
        {
            if !self.filters[i].enabled {
                assert(!self.filters@[i as int].enabled);
                return false;
            }
            i += 1;
        }
        true
    }

    /// Switches every filter on or off. Says whether that changed any.
    pub fn set_all_filters_enabled(&mut self, enabled: bool) -> (changed: bool)
        ensures
            final(self).filters@ == old(self).filters@.map_values(
                |filter: FilterSpec| FilterSpec { enabled, ..filter },
            ),
            changed == exists|i: int|
                0 <= i < old(self).filters@.len() && (#[trigger] old(self).filters@[i]).enabled
                    != enabled,
            final(self).dirty == (old(self).dirty || changed),
            *final(self) == (FilterBook {
                filters: final(self).filters,
                dirty: final(self).dirty,
                ..*old(self)
            }),
    {
        let ghost wanted = self.filters@.map_values(
            |filter: FilterSpec| FilterSpec { enabled, ..filter },
        );
        let ghost before = self.filters@;
        let mut changed = false;
        let mut out: Vec<FilterSpec> = Vec::new();
        let mut i: usize = 0;
        while i < self.filters.len()
            invariant
                i <= self.filters@.len(),
                *self == *old(self),
                before == self.filters@,
                wanted == before.map_values(|filter: FilterSpec| FilterSpec { enabled, ..filter }),
                out@ == wanted.take(i as int),
                changed == exists|k: int| 0 <= k < i && (#[trigger] before[k]).enabled != enabled,
            decreases self.filters@.len() - i,
        {
            let mut filter = self.filters[i].clone();
            if filter.enabled != enabled {
                assert(before[i as int].enabled != enabled);
                filter.enabled = enabled;
                changed = true;
            }
            out.push(filter);
            assert(wanted.take(i + 1) =~= wanted.take(i as int).push(wanted[i as int]));
            i += 1;
        }
        assert(wanted.take(i as int) =~= wanted);
        self.filters = out;
        if changed {
            self.dirty = true;
        }
        changed
    }

    /// Changes one filter.
    pub fn toggle_filter(&mut self, index: usize, toggle: FilterToggle)
        requires
            index < old(self).filters@.len(),
        ensures
            final(self).filters@ == old(self).filters@.update(
                index as int,
                changed_filter(old(self).filters@[index as int], toggle),
            ),
            *final(self) == (FilterBook {
                filters: final(self).filters,
                dirty: true,
                ..*old(self)
            }),
    {
        let mut filter = self.filters[index].clone();
        match toggle {
            FilterToggle::Enabled(enabled) => {
                filter.enabled = enabled;
            },
            FilterToggle::Excluding => {
                filter.excluding = !filter.excluding;
            },
            FilterToggle::Mode => {
                filter.mode = match filter.mode {
                    HighlightMode::Field => HighlightMode::Line,
                    HighlightMode::Line => HighlightMode::Field,
                };
            },
            FilterToggle::Regex => {
                filter.regex = !filter.regex;
            },
            FilterToggle::CaseSensitive => {
                filter.case_sensitive = !filter.case_sensitive;
            },
            FilterToggle::Scope => {
                filter.scope = toggled_scope(filter.scope);
            },
        }
        self.filters.set(index, filter);
        self.dirty = true;
    }

    /// Selects a filter.
    pub fn select_filter(&mut self, index: usize)
        requires
            index < old(self).filters@.len(),
        ensures
            final(self).wf(),
            *final(self) == (FilterBook { selected: Some(index), ..*old(self) }),
    {
        self.selected = Some(index);
    }

    /// Opens the editor for a new filter. It starts with what is neutral: no colors, the usual
    /// size, and the given scope.
    pub fn begin_add_filter(&mut self, scope: FilterScope) -> (r: EditorFields)
        ensures
            is_blank(r),
            *final(self) == (FilterBook {
                editor: FilterEditor {
                    open: true,
                    editing: None,
                    scope,
                    bold: false,
                    font_size: None,
                },
                ..*old(self)
            }),
    {
        self.editor = FilterEditor {
            open: true,
            editing: None,
            scope,
            bold: false,
            font_size: None,
        };
        EditorFields { text: String::new(), description: String::new(), fore: None, back: None }
    }

    /// Opens the editor for a new filter with the selected text, unless that is blank.
    pub fn begin_add_filter_from_selection(&mut self, selected: Option<&str>, scope: FilterScope) -> (r:
        Option<EditorFields>)
        ensures
            match selected {
                Some(selected) => r is Some == (text::trim(selected@).len() > 0),
                None => r is None,
            },
            r is None ==> *final(self) == *old(self),
            r matches Some(fields) ==> selected is Some && fields.text@ == text::trim(
                selected.unwrap()@,
            ) && fields.description@.len() == 0 && fields.fore is None && fields.back is None
                && *final(self) == (FilterBook {
                editor: FilterEditor {
                    open: true,
                    editing: None,
                    scope,
                    bold: false,
                    font_size: None,
                },
                ..*old(self)
            }),
    {
        let value = match selected {
            Some(selected) => text::trimmed(&text::chars_of(selected)),
            None => {
                return None;
            },
        };
        if value.len() == 0 {
            return None;
        }
        let mut fields = self.begin_add_filter(scope);
        fields.text = text::text_of(&value);
        Some(fields)
    }

    /// Opens the editor for the selected filter, if there is one.
    pub fn begin_edit_filter(&mut self) -> (r: Option<EditorFields>)
        ensures
            match old(self).selected {
                Some(index) => if index < old(self).filters@.len() {
                    let filter = old(self).filters@[index as int];
                    r == Some(
                        EditorFields {
                            text: filter.text,
                            description: filter.description,
                            fore: filter.fore,
                            back: filter.back,
                        },
                    ) && *final(self) == (FilterBook {
                        editor: FilterEditor {
                            open: true,
                            editing: Some(index),
                            scope: filter.scope,
                            bold: filter.bold,
                            font_size: filter.font_size,
                        },
                        ..*old(self)
                    })
                } else {
                    r is None && *final(self) == *old(self)
                },
                None => r is None && *final(self) == *old(self),
            },
    {
        let index = match self.selected {
            Some(index) => index,
            None => {
                return None;
            },
        };
        if index >= self.filters.len() {
            return None;
        }
        let filter = self.filters[index].clone();
        self.editor = FilterEditor {
            open: true,
            editing: Some(index),
            scope: filter.scope,
            bold: filter.bold,
            font_size: filter.font_size,
        };
        Some(
            EditorFields {
                text: filter.text,
                description: filter.description,
                fore: filter.fore,
                back: filter.back,
            },
        )
    }

    /// Closes the editor without taking anything over.
    pub fn cancel_editor(&mut self)
        ensures
            *final(self) == (FilterBook {
                editor: FilterEditor { open: false, editing: None, ..old(self).editor },
                ..*old(self)
            }),
    {
        self.editor.open = false;
        self.editor.editing = None;
    }

    /// Changes the scope in the editor.
    pub fn toggle_editor_scope(&mut self)
        ensures
            *final(self) == (FilterBook {
                editor: FilterEditor { scope: other_scope(old(self).editor.scope), ..old(self).editor },
                ..*old(self)
            }),
    {
        self.editor.scope = toggled_scope(self.editor.scope);
    }

    /// Changes in the editor whether matches are bold.
    pub fn toggle_editor_bold(&mut self)
        ensures
            *final(self) == (FilterBook {
                editor: FilterEditor { bold: !old(self).editor.bold, ..old(self).editor },
                ..*old(self)
            }),
    {
        self.editor.bold = !self.editor.bold;
    }

    /// Goes on to the next font size in the editor.
    pub fn cycle_editor_font_size(&mut self)
        ensures
            *final(self) == (FilterBook {
                editor: FilterEditor {
                    font_size: following_size(old(self).editor.font_size),
                    ..old(self).editor
                },
                ..*old(self)
            }),
    {
        self.editor.font_size = next_filter_font_size(self.editor.font_size);
    }

    /// The filter that is edited, if it is still there.
    pub open spec fn edited(&self) -> Option<usize> {
        match self.editor.editing {
            Some(index) => if index < self.filters@.len() {
                Some(index)
            } else {
                None
            },
            None => None,
        }
    }

    /// Takes over what was put into the editor, as a change to the filter that is edited or as
    /// a new one, made from `template`; then that filter is selected and the editor closed.
    /// Without a text nothing happens.
    pub fn commit_filter(&mut self, input: &FilterInput, template: &FilterSpec) -> (changed: bool)
        requires
            old(self).wf(),
            old(self).filters@.len() < usize::MAX,
        ensures
            final(self).wf(),
            changed == (text::trim(input.text@).len() > 0),
            !changed ==> *final(self) == *old(self),
            changed ==> *final(self) == (FilterBook {
                filters: final(self).filters,
                dirty: true,
                selected: final(self).selected,
                editor: FilterEditor { open: false, editing: None, ..old(self).editor },
                ..*old(self)
            }),
            changed ==> match old(self).edited() {
                Some(index) => {
                    &&& final(self).selected == Some(index)
                    &&& final(self).filters@.len() == old(self).filters@.len()
                    &&& final(self).filters@ == old(self).filters@.update(
                        index as int,
                        final(self).filters@[index as int],
                    )
                    &&& composed_filter(
                        old(self).filters@[index as int],
                        *input,
                        old(self).editor,
                        final(self).filters@[index as int],
                    )
                },
                None => {
                    &&& final(self).selected == Some(old(self).filters@.len() as usize)
                    &&& final(self).filters@.len() == old(self).filters@.len() + 1
                    &&& final(self).filters@ == old(self).filters@.push(final(self).filters@.last())
                    &&& composed_filter(
                        (FilterSpec { mode: HighlightMode::Field, ..*template }),
                        *input,
                        old(self).editor,
                        final(self).filters@.last(),
                    )
                },
            },
    {
        if text::trimmed(&text::chars_of(&input.text)).len() == 0 {
            return false;
        }
        let mut place: Option<usize> = None;
        if let Some(index) = self.editor.editing {
            if index < self.filters.len() {
                place = Some(index);
            }
        }
        match place {
            Some(index) => {
                let filter = compose_filter(self.filters[index].clone(), input, self.editor);
                self.filters.set(index, filter);
                self.selected = Some(index);
            },
            None => {
                let mut fresh = template.clone();
                fresh.mode = HighlightMode::Field;
                let filter = compose_filter(fresh, input, self.editor);
                self.filters.push(filter);
                self.selected = Some(self.filters.len() - 1);
            },
        }
        self.editor = FilterEditor {
            open: false,
            editing: None,
            scope: self.editor.scope,
            bold: self.editor.bold,
            font_size: self.editor.font_size,
        };
        self.dirty = true;
        true
    }

    /// Removes the selected filter, if there is one, and selects the one that takes its place,
    /// or else the last one.
    pub fn delete_selected_filter(&mut self) -> (changed: bool)
        requires
            old(self).wf(),
        ensures
            final(self).wf(),
            changed == (old(self).selected is Some),
            !changed ==> *final(self) == *old(self),
            changed ==> {
                let index = old(self).selected.unwrap();
                let rest = old(self).filters@.remove(index as int);
                &&& final(self).filters@ == rest
                &&& final(self).selected == if index < rest.len() {
                    Some(index)
                } else if rest.len() > 0 {
                    Some((rest.len() - 1) as usize)
                } else {
                    None
                }
                &&& *final(self) == (FilterBook {
                    filters: final(self).filters,
                    selected: final(self).selected,
                    dirty: true,
                    editor: FilterEditor { open: false, editing: None, ..old(self).editor },
                    ..*old(self)
                })
            },
    {
        let index = match self.selected {
            Some(index) => index,
            None => {
                return false;
            },
        };
        self.filters.remove(index);
        self.selected = if index < self.filters.len() {
            Some(index)
        } else if self.filters.len() > 0 {
            Some(self.filters.len() - 1)
        } else {
            None
        };
        self.editor.open = false;
        self.editor.editing = None;
        self.dirty = true;
        true
    }

    /// Changes whether only matching lines are shown. Says whether that is new.
    pub fn set_show_only(&mut self, only: bool) -> (changed: bool)
        ensures
            changed == (old(self).show_only_filtered != only),
            !changed ==> *final(self) == *old(self),
            changed ==> *final(self) == (FilterBook {
                show_only_filtered: only,
                dirty: true,
                ..*old(self)
            }),
    {
        if self.show_only_filtered == only {
            return false;
        }
        self.show_only_filtered = only;
        self.dirty = true;
        true
    }

    /// Replaces the terms of the search.
    pub fn set_search(&mut self, keywords: Vec<String>, color: u32, template: &FilterSpec)
        ensures
            final(self).search_filters@ == keywords@.map_values(
                |keyword: String| search_filter(keyword, color, *template),
            ),
            *final(self) == (FilterBook {
                search_filters: final(self).search_filters,
                ..*old(self)
            }),
    {
        let ghost wanted = keywords@.map_values(
            |keyword: String| search_filter(keyword, color, *template),
        );
        let ghost all = keywords@;
        let mut out: Vec<FilterSpec> = Vec::new();
        for keyword in it: keywords
            invariant
                it.seq() == all,
                *self == *old(self),
                wanted == all.map_values(
                    |keyword: String| search_filter(keyword, color, *template),
                ),
                out@ == wanted.take(it.index() as int),
        {
            let ghost n = it.index() as int;
            let mut filter = template.clone();
            filter.text = keyword;
            filter.mode = HighlightMode::Field;
            filter.fore = Some(color);
            out.push(filter);
            assert(wanted[n] == filter);
            assert(wanted.take(n + 1) =~= wanted.take(n).push(wanted[n]));
        }
        assert(wanted.take(wanted.len() as int) =~= wanted);
        self.search_filters = out;
    }

    /// Gives the terms of the search another color. Says whether there are any.
    pub fn recolor_search(&mut self, color: u32) -> (r: bool)
        ensures
            r == (old(self).search_filters@.len() > 0),
            final(self).search_filters@ == old(self).search_filters@.map_values(
                |filter: FilterSpec| FilterSpec { fore: Some(color), ..filter },
            ),
            *final(self) == (FilterBook {
                search_filters: final(self).search_filters,
                ..*old(self)
            }),
    {
        let ghost before = self.search_filters@;
        let ghost wanted = before.map_values(
            |filter: FilterSpec| FilterSpec { fore: Some(color), ..filter },
        );
        let mut out: Vec<FilterSpec> = Vec::new();
        let mut i: usize = 0;
        while i < self.search_filters.len()
            invariant
                i <= self.search_filters@.len(),
                *self == *old(self),
                before == self.search_filters@,
                wanted == before.map_values(
                    |filter: FilterSpec| FilterSpec { fore: Some(color), ..filter },
                ),
                out@ == wanted.take(i as int),
            decreases self.search_filters@.len() - i,
        {
            let mut filter = self.search_filters[i].clone();
            filter.fore = Some(color);
            out.push(filter);
            assert(wanted.take(i + 1) =~= wanted.take(i as int).push(wanted[i as int]));
            i += 1;
        }
        assert(wanted.take(i as int) =~= wanted);
        let some = out.len() > 0;
        self.search_filters = out;
        some
    }

    /// Takes over the filters of a file. Saving goes to `save_path`: for the native format the
    /// file itself, for the other one a file of the native format beside it.
    pub fn load_filters(&mut self, filters: Vec<FilterSpec>, show_only: bool, save_path: u64)
        ensures
            final(self).wf(),
            final(self).filters == filters,
            final(self).selected == if filters@.len() > 0 {
                Some(0usize)
            } else {
                None
            },
            *final(self) == (FilterBook {
                filters,
                show_only_filtered: show_only,
                save_path: Some(save_path),
                selected: final(self).selected,
                dirty: false,
                ..*old(self)
            }),
    {
        self.selected = if filters.len() > 0 {
            Some(0)
        } else {
            None
        };
        self.filters = filters;
        self.show_only_filtered = show_only;
        self.save_path = Some(save_path);
        self.dirty = false;
    }

    /// Takes note of how saving to a file went.
    pub fn saved(&mut self, path: u64, success: bool)
        ensures
            !success ==> *final(self) == *old(self),
            success ==> *final(self) == (FilterBook {
                save_path: Some(path),
                dirty: false,
                ..*old(self)
            }),
    {
        if success {
            self.save_path = Some(path);
            self.dirty = false;
        }
    }

    /// Whether the window may close right away. With something to save it is asked first, once.
    pub fn should_close_window(&mut self) -> (r: (bool, bool))
        ensures
            r.0 == !old(self).dirty,
            r.1 == (old(self).dirty && !old(self).prompt_open),
            *final(self) == (FilterBook {
                prompt_open: old(self).prompt_open || old(self).dirty,
                ..*old(self)
            }),
    {
        if !self.dirty {
            return (true, false);
        }
        let ask = !self.prompt_open;
        self.prompt_open = true;
        (false, ask)
    }

    /// The question whether to save was answered or put away.
    pub fn close_prompt(&mut self)
        ensures
            *final(self) == (FilterBook { prompt_open: false, ..*old(self) }),
    {
        self.prompt_open = false;
    }
}

/// A configured filter for all files looks the same from every tab, and one for the current
/// file is the same from its own tab and switched off from every other.
pub proof fn tabs_differ_only_in_current_file_filters(
    filters: Seq<FilterSpec>,
    search: Seq<FilterSpec>,
    tab: nat,
    other: nat,
    active: nat,
    i: int,
)
    requires
        0 <= i < filters.len(),
    ensures
        filters[i].scope == FilterScope::AllFiles ==> tab_filters(filters, search, tab, active)[i]
            == tab_filters(filters, search, other, active)[i],
        tab_filters(filters, search, active, active)[i] == filters[i],
        tab != active && filters[i].scope == FilterScope::CurrentFile ==> !tab_filters(
            filters,
            search,
            tab,
            active,
        )[i].enabled,
        tab_filters(filters, search, tab, active).len() == filters.len() + search.len(),
{
}

/// What is done to a tab when the filters changed.
#[derive(Clone, Copy, Debug, PartialEq, Eq, Structural)]
pub enum TabRefresh {
    Apply,
    MarkDirty,
}

/// Which tabs are filtered again when the filters changed: the active one at once, and all of
/// them where matches are listed over all files, by the filters as they are now (`lists_now`)
/// or as a tab still has them (`listed`). The others wait until they become active.
pub fn filters_changed(active: usize, lists_now: bool, listed: &Vec<bool>) -> (r: Vec<TabRefresh>)
    ensures
        r@.len() == listed@.len(),
        forall|i: int|
            0 <= i < r@.len() ==> #[trigger] r@[i] == if i == active || lists_now
                || listed@.contains(true) {
                TabRefresh::Apply
            } else {
                TabRefresh::MarkDirty
            },
{
    let mut all = lists_now;
    let mut i: usize = 0;
    while i < listed.len()
        invariant
            i <= listed@.len(),
            all == (lists_now || exists|k: int| 0 <= k < i && #[trigger] listed@[k]),
        decreases listed@.len() - i,
    {
        if listed[i] {
            assert(listed@[i as int]);
            all = true;
        }
        i += 1;
    }
    assert(all == (lists_now || listed@.contains(true)));
    let mut out: Vec<TabRefresh> = Vec::new();
    let mut j: usize = 0;
    while j < listed.len()
        invariant
            j <= listed@.len(),
            all == (lists_now || listed@.contains(true)),
            out@.len() == j,
            forall|k: int|
                0 <= k < j ==> #[trigger] out@[k] == if k == active || lists_now
                    || listed@.contains(true) {
                    TabRefresh::Apply
                } else {
                    TabRefresh::MarkDirty
                },
        decreases listed@.len() - j,
    {
        if j == active || all {
            out.push(TabRefresh::Apply);
        } else {
            out.push(TabRefresh::MarkDirty);
        }
        j += 1;
    }
    out
}

/// What the label for the number of matches says.
pub open spec fn count_label(count: Option<u64>, pending: bool) -> Seq<char> {
    match count {
        Some(count) => text::grouped(text::decimal(count as nat)),
        None => if pending {
            "..."@
        } else {
            "-"@
        },
    }
}

/// A filter in the list: what is shown of it and which of its switches are on.
pub struct FilterRow {
    pub selected: bool,
    pub enabled: bool,
    pub excluding: bool,
    pub whole_line: bool,
    pub regex: bool,
    pub case_sensitive: bool,
    pub all_files: bool,
    pub scope_label: String,
    pub text: String,
    pub description: Option<String>,
    pub fore: Option<u32>,
    pub back: Option<u32>,
    pub bold: bool,
    pub italic: bool,
    pub count: String,
}

/// `row` is what is shown of a filter.
pub open spec fn is_filter_row(
    row: FilterRow,
    filter: FilterSpec,
    index: int,
    selected: Option<usize>,
    match_count: Option<u64>,
    match_count_pending: bool,
    lang: Language,
) -> bool {
    &&& row.selected == (selected is Some && selected.unwrap() == index)
    &&& row.enabled == filter.enabled
    &&& row.excluding == filter.excluding
    &&& row.whole_line == (filter.mode == HighlightMode::Line)
    &&& row.regex == filter.regex
    &&& row.case_sensitive == filter.case_sensitive
    &&& row.all_files == (filter.scope == FilterScope::AllFiles)
    &&& row.scope_label@ == i18n::translation(Key::FilterScope, lang)@ + ": "@
        + i18n::translation(scope_key(filter.scope), lang)@
    &&& row.text == filter.text
    &&& row.description == (if filter.description@.len() > 0 {
        Some(filter.description)
    } else {
        None
    })
    &&& row.fore == filter.fore
    &&& row.back == filter.back
    &&& row.bold == filter.bold
    &&& row.italic == filter.italic
    &&& row.count@ == count_label(match_count, match_count_pending)
}

/// A filter in the list.
pub fn filter_row(
    filter: &FilterSpec,
    index: usize,
    selected: Option<usize>,
    match_count: Option<u64>,
    match_count_pending: bool,
    lang: Language,
) -> (r: FilterRow)
    ensures
        is_filter_row(
            r,
            *filter,
            index as int,
            selected,
            match_count,
            match_count_pending,
            lang,
        ),
{
    let is_selected = match selected {
        Some(other) => other == index,
        None => false,
    };
    let description = if filter.description.as_str().is_empty() {
        None
    } else {
        Some(filter.description.clone())
    };
    let count = match match_count {
        Some(count) => text::group(count),
        None => if match_count_pending {
            "...".to_owned()
        } else {
            "-".to_owned()
        },
    };
    FilterRow {
        selected: is_selected,
        enabled: filter.enabled,
        excluding: filter.excluding,
        whole_line: filter.mode == HighlightMode::Line,
        regex: filter.regex,
        case_sensitive: filter.case_sensitive,
        all_files: filter.scope == FilterScope::AllFiles,
        scope_label: scope_words(filter.scope, lang),
        text: filter.text.clone(),
        description,
        fore: filter.fore,
        back: filter.back,
        bold: filter.bold,
        italic: filter.italic,
        count,
    }
}

/// What the switch of the scope says.
pub fn scope_words(scope: FilterScope, lang: Language) -> (r: String)
    ensures
        r@ == i18n::translation(Key::FilterScope, lang)@ + ": "@ + i18n::translation(
            scope_key(scope),
            lang,
        )@,
{
    text::concat3(i18n::text(Key::FilterScope, lang), ": ", filter_scope_label(scope, lang))
}

/// What the button for the font size says.
pub fn font_size_label(size: Option<u16>) -> (r: String)
    ensures
        r@ == match size {
            Some(size) => text::decimal(size as nat),
            None => "A"@,
        },
{
    match size {
        Some(size) => text::decimal_text(size as u64),
        None => "A".to_owned(),
    }
}

/// The editor as it is shown.
pub struct EditorView {
    pub scope_label: String,
    pub all_files: bool,
    pub bold: bool,
    pub font_size_label: String,
    pub font_size_set: bool,
}

/// The panel of filters as it is shown: the editor, if it is open, and a row for each filter.
/// Where there is none, that is said instead.
pub struct FilterPanelView {
    pub editor: Option<EditorView>,
    pub rows: Vec<FilterRow>,
    pub notice: Option<Key>,
}

/// How often a filter matches, as far as that is known.
pub open spec fn known_count(counts: Option<Seq<u64>>, index: int) -> Option<u64> {
    match counts {
        Some(counts) => if index < counts.len() {
            Some(counts[index])
        } else {
            None
        },
        None => None,
    }
}

/// The panel of filters as it is shown. `counts` are the numbers of matches in the active log;
/// with a log and no counts they are still to come.
pub fn render_filters(
    book: &FilterBook,
    has_view: bool,
    counts: Option<&Vec<u64>>,
    lang: Language,
) -> (r: FilterPanelView)
    ensures
        r.rows@.len() == book.filters@.len(),
        forall|i: int|
            0 <= i < r.rows@.len() ==> is_filter_row(
                #[trigger] r.rows@[i],
                book.filters@[i],
                i,
                book.selected,
                known_count(
                    match counts {
                        Some(counts) => Some(counts@),
                        None => None,
                    },
                    i,
                ),
                has_view && counts is None,
                lang,
            ),
        r.notice == (if book.filters@.len() == 0 {
            Some(Key::NoFilters)
        } else {
            None
        }),
        match r.editor {
            Some(editor) => {
                &&& book.editor.open
                &&& editor.scope_label@ == i18n::translation(Key::FilterScope, lang)@ + ": "@
                    + i18n::translation(scope_key(book.editor.scope), lang)@
                &&& editor.all_files == (book.editor.scope == FilterScope::AllFiles)
                &&& editor.bold == book.editor.bold
                &&& editor.font_size_label@ == match book.editor.font_size {
                    Some(size) => text::decimal(size as nat),
                    None => "A"@,
                }
                &&& editor.font_size_set == (book.editor.font_size is Some)
            },
            None => !book.editor.open,
        },
{
    let pending = has_view && counts.is_none();
    let ghost known = match counts {
        Some(counts) => Some(counts@),
        None => None,
    };
    let mut rows: Vec<FilterRow> = Vec::new();
    let mut i: usize = 0;
    while i < book.filters.len()
        invariant
            i <= book.filters@.len(),
            rows@.len() == i,
            pending == (has_view && counts is None),
            known == match counts {
                Some(counts) => Some(counts@),
                None => None,
            },
            forall|k: int|
                0 <= k < i ==> is_filter_row(
                    #[trigger] rows@[k],
                    book.filters@[k],
                    k,
                    book.selected,
                    known_count(known, k),
                    pending,
                    lang,
                ),
        decreases book.filters@.len() - i,
    {
        let count = match counts {
            Some(counts) => if i < counts.len() {
                Some(counts[i])
            } else {
                None
            },
            None => None,
        };
        rows.push(filter_row(&book.filters[i], i, book.selected, count, pending, lang));
        i += 1;
    }
    let editor = if book.editor.open {
        Some(
            EditorView {
                scope_label: scope_words(book.editor.scope, lang),
                all_files: book.editor.scope == FilterScope::AllFiles,
                bold: book.editor.bold,
                font_size_label: font_size_label(book.editor.font_size),
                font_size_set: book.editor.font_size.is_some(),
            },
        )
    } else {
        None
    };
    let notice = if book.filters.len() == 0 {
        Some(Key::NoFilters)
    } else {
        None
    };
    FilterPanelView { editor, rows, notice }
}

/// The format of a file by its extension, which may be in any case.
pub open spec fn format_of(extension: Option<Seq<char>>) -> Option<FilterFormat> {
    match extension {
        Some(extension) => if text::lower(extension) == "tat"@ {
            Some(FilterFormat::Tat)
        } else if text::lower(extension) == "logd"@ {
            Some(FilterFormat::Logd)
        } else {
            None
        },
        None => None,
    }
}

/// The format of a file by its extension: none means that it is a log.
pub fn filter_format(extension: Option<&str>) -> (r: Option<FilterFormat>)
    ensures
        r == format_of(
            match extension {
                Some(extension) => Some(extension@),
                None => None,
            },
        ),
{
    match extension {
        Some(extension) => {
            let lower = text::to_lower(&text::chars_of(extension));
            if text::same_chars(&lower, &text::chars_of("tat")) {
                Some(FilterFormat::Tat)
            } else if text::same_chars(&lower, &text::chars_of("logd")) {
                Some(FilterFormat::Logd)
            } else {
                None
            }
        },
        None => None,
    }
}

/// The format that filters are saved in: the compatible one only where the name asks for it.
pub fn save_format(extension: Option<&str>) -> (r: FilterFormat)
    ensures
        r == if format_of(
            match extension {
                Some(extension) => Some(extension@),
                None => None,
            },
        ) == Some(FilterFormat::Tat) {
            FilterFormat::Tat
        } else {
            FilterFormat::Logd
        },
{
    match filter_format(extension) {
        Some(FilterFormat::Tat) => FilterFormat::Tat,
        _ => FilterFormat::Logd,
    }
}

/// The filters of a tab are those that are configured, in their order, and behind them those of
/// the search, which apply everywhere. A filter for the current file is switched off in any
/// other tab and is otherwise as it is configured.
pub proof fn search_filters_follow_the_configured_ones(
    filters: Seq<FilterSpec>,
    search: Seq<FilterSpec>,
    tab: nat,
    active: nat,
    i: int,
)
    requires
        0 <= i < filters.len() + search.len(),
    ensures
        tab_filters(filters, search, tab, active)[i] == if i >= filters.len() {
            search[i - filters.len()]
        } else if filters[i].scope == FilterScope::CurrentFile && tab != active {
            FilterSpec { enabled: false, ..filters[i] }
        } else {
            filters[i]
        },
{
}

/// A click on one property of a filter turns that one over and leaves every other as it is.
pub proof fn a_toggle_changes_one_property(filter: FilterSpec, toggle: FilterToggle)
    ensures
        ({
            let changed = changed_filter(filter, toggle);
            &&& changed.text == filter.text
            &&& changed.description == filter.description
            &&& changed.fore == filter.fore
            &&& changed.back == filter.back
            &&& changed.bold == filter.bold
            &&& changed.italic == filter.italic
            &&& changed.font_size == filter.font_size
            &&& !(toggle is Enabled) ==> changed.enabled == filter.enabled
            &&& toggle matches FilterToggle::Enabled(on) ==> changed.enabled == on
            &&& (toggle is Excluding <==> changed.excluding != filter.excluding)
            &&& (toggle is Mode <==> changed.mode != filter.mode)
            &&& (toggle is Regex <==> changed.regex != filter.regex)
            &&& (toggle is CaseSensitive <==> changed.case_sensitive != filter.case_sensitive)
            &&& (toggle is Scope <==> changed.scope != filter.scope)
        }),
{
}

/// The sizes on offer grow by two from twelve to eighteen. From no size of its own a filter goes
/// to the smallest, from the largest back to none, and from any other to the smallest.
pub proof fn font_sizes_grow_by_two(size: u16)
    ensures
        following_size(None) == Some(12u16),
        following_size(Some(18)) is None,
        12 <= size < 18 && size % 2 == 0 ==> following_size(Some(size)) == Some((size + 2) as u16),
        !(12 <= size <= 18 && size % 2 == 0) ==> following_size(Some(size)) == Some(12u16),
{
}

/// Which format a file has follows from its extension, whether that is in capitals or not, and
/// from nothing but the two that are known.
pub proof fn extensions_in_capitals_count(a: Seq<char>, b: Seq<char>)
    ensures
        text::lower(a) == text::lower(b) ==> format_of(Some(a)) == format_of(Some(b)),
        format_of(Some(a)) == Some(FilterFormat::Tat) <==> text::lower(a) == seq!['t', 'a', 't'],
        format_of(Some(a)) == Some(FilterFormat::Logd) <==> text::lower(a) == seq![
            'l',
            'o',
            'g',
            'd',
        ],
        format_of(None) is None,
{
    reveal_strlit("tat");
    reveal_strlit("logd");
    assert("tat"@ =~= seq!['t', 'a', 't']);
    assert("logd"@ =~= seq!['l', 'o', 'g', 'd']);
}

/// A filter reaches into all files only while it is on and looks for lines to show; one of the
/// current file or one that leaves lines out does not.
pub proof fn excluding_filters_list_nothing(filter: FilterSpec, active: bool)
    ensures
        lists_all_files(filter, active) ==> active && !filter.excluding,
        filter.scope == FilterScope::CurrentFile ==> !lists_all_files(filter, active),
        lists_all_files(filter, true) || filter.excluding || filter.scope
            == FilterScope::CurrentFile,
        forall|c: u64| #[trigger]
            count_label(Some(c), active) == text::grouped(text::decimal(c as nat)),
        count_label(None, true) != count_label(None, false),
{
    reveal_strlit("...");
    reveal_strlit("-");
    assert("..."@.len() != "-"@.len());
}

} // verus!
