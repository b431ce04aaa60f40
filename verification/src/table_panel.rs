//! The panel of extracted tables: its pages, and their export.

use crate::i18n::Language;
use crate::log_analysis;
use crate::regex_table;
use crate::regex_table::RecordTable;
use crate::text;
use std::sync::Arc;
use vstd::prelude::*;

verus! {

/// A page with a pattern and the table that was extracted by it.
pub struct RegexTablePage {
    pub id: u64,
    pub pattern: String,
    /// The headings that the user gave to columns.
    pub headers: Vec<(String, String)>,
    pub table: RecordTable,
    pub table_pattern: String,
    pub running: bool,
    pub generation: u64,
    pub table_revision: u64,
    pub rendered_table_key: String,
}

/// A page on which nothing has happened yet.
pub open spec fn is_fresh_page(page: RegexTablePage, id: u64) -> bool {
    &&& page.id == id
    &&& page.pattern@.len() == 0
    &&& page.headers@.len() == 0
    &&& page.table@ == regex_table::empty_table()
    &&& page.table_pattern@.len() == 0
    &&& !page.running
    &&& page.generation == 0
    &&& page.table_revision == 0
    &&& page.rendered_table_key@.len() == 0
}

/// A page on which nothing has happened yet.
pub fn new_regex_page(id: u64) -> (r: RegexTablePage)
    ensures
        is_fresh_page(r, id),
{
    RegexTablePage {
        id,
        pattern: String::new(),
        headers: Vec::new(),
        table: RecordTable::default(),
        table_pattern: String::new(),
        running: false,
        generation: 0,
        table_revision: 0,
        rendered_table_key: String::new(),
    }
}

/// The panel. There always is a page.
pub struct RegexTablePanel {
    pub visible: bool,
    pub pages: Vec<RegexTablePage>,
    pub active_page: usize,
    pub next_page_id: u64,
}

/// The first page with an id.
pub open spec fn page_with_id(pages: Seq<RegexTablePage>, id: u64, from: nat) -> Option<nat>
    decreases pages.len() - from,
{
    if from >= pages.len() {
        None
    } else if pages[from as int].id == id {
        Some(from)
    } else {
        page_with_id(pages, id, from + 1)
    }
}

impl RegexTablePanel {
    /// There is a page, and the active one is there.
    pub open spec fn wf(&self) -> bool {
        self.active_page < self.pages@.len()
    }

    /// The active page.
    pub open spec fn active(&self) -> RegexTablePage {
        self.pages@[self.active_page as int]
    }

    /// A panel that is shown, with one page.
    pub fn new() -> (r: RegexTablePanel)
        ensures
            r.wf(),
            r.visible,
            r.pages@.len() == 1,
            is_fresh_page(r.pages@[0], 1),
            r.active_page == 0,
            r.next_page_id == 2,
    {
        let mut pages: Vec<RegexTablePage> = Vec::new();
        pages.push(new_regex_page(1));
        RegexTablePanel { visible: true, pages, active_page: 0, next_page_id: 2 }
    }

    /// Whether the panel is shown.
    pub fn visible(&self) -> (r: bool)
        ensures
            r == self.visible,
    {
        self.visible
    }

    /// Shows or hides the panel. Says whether that is new.
    pub fn set_visible(&mut self, visible: bool) -> (changed: bool)
        ensures
            changed == (old(self).visible != visible),
            *final(self) == (RegexTablePanel { visible, ..*old(self) }),
    {
        let changed = self.visible != visible;
        self.visible = visible;
        changed
    }

    /// The tabs of the pages: the id of each, and whether it is the active one.
    pub fn page_tabs(&self) -> (r: Vec<(u64, bool)>)
        ensures
            r@ == Seq::new(
                self.pages@.len(),
                |i: int| (self.pages@[i].id, i == self.active_page),
            ),
    {
        let mut out: Vec<(u64, bool)> = Vec::new();
        let mut i: usize = 0;
        while i < self.pages.len()
            invariant
                i <= self.pages@.len(),
                out@.len() == i,
                forall|k: int|
                    0 <= k < i ==> #[trigger] out@[k] == (self.pages@[k].id, k == self.active_page),
            decreases self.pages@.len() - i,
        {
            out.push((self.pages[i].id, i == self.active_page));
            i += 1;
        }
        assert(out@ =~= Seq::new(
            self.pages@.len(),
            |i: int| (self.pages@[i].id, i == self.active_page),
        ));
        out
    }

    /// Replaces the pattern of the active page.
    fn keep_pattern(&mut self, pattern: String)
        requires
            old(self).wf(),
        ensures
            final(self).wf(),
            final(self).pages@ == old(self).pages@.update(
                old(self).active_page as int,
                RegexTablePage { pattern, ..old(self).active() },
            ),
            final(self).active_page == old(self).active_page,
            final(self).visible == old(self).visible,
            final(self).next_page_id == old(self).next_page_id,
    {
        let i = self.active_page;
        self.pages[i].pattern = pattern;
    }

    /// Goes to another page, if it is there. What was typed stays with the page that is left.
    /// Gives the pattern of the page that is reached.
    pub fn select_page(&mut self, index: usize, current_pattern: String) -> (r: Option<String>)
        requires
            old(self).wf(),
        ensures
            final(self).wf(),
            index >= old(self).pages@.len() ==> r is None && *final(self) == *old(self),
            index < old(self).pages@.len() ==> {
                &&& final(self).pages@ == old(self).pages@.update(
                    old(self).active_page as int,
                    RegexTablePage { pattern: current_pattern, ..old(self).active() },
                )
                &&& final(self).active_page == index
                &&& final(self).visible == old(self).visible
                &&& final(self).next_page_id == old(self).next_page_id
                &&& r == Some(final(self).active().pattern)
            },
    {
        if index >= self.pages.len() {
            return None;
        }
        self.keep_pattern(current_pattern);
        self.active_page = index;
        Some(self.pages[index].pattern.clone())
    }

    /// Adds a page behind the others and goes to it.
    pub fn add_page(&mut self, current_pattern: String)
        requires
            old(self).wf(),
            old(self).pages@.len() < usize::MAX,
        ensures
            final(self).wf(),
            final(self).pages@.len() == old(self).pages@.len() + 1,
            final(self).pages@.drop_last() == old(self).pages@.update(
                old(self).active_page as int,
                RegexTablePage { pattern: current_pattern, ..old(self).active() },
            ),
            is_fresh_page(final(self).pages@.last(), old(self).next_page_id),
            final(self).active_page == old(self).pages@.len(),
            final(self).next_page_id == log_analysis::next_generation(old(self).next_page_id),
            final(self).visible == old(self).visible,
    {
        self.keep_pattern(current_pattern);
        let id = self.next_page_id;
        self.next_page_id = self.next_page_id.wrapping_add(1);
        let ghost before = self.pages@;
        self.pages.push(new_regex_page(id));
        assert(self.pages@.drop_last() =~= before);
        self.active_page = self.pages.len() - 1;
    }

    /// Removes the active page. The last page is replaced by a new one. Gives the pattern of
    /// the page that is then active: the one that takes its place, or else the last one.
    pub fn remove_active_page(&mut self) -> (r: String)
        requires
            old(self).wf(),
        ensures
            final(self).wf(),
            r == final(self).active().pattern,
            final(self).visible == old(self).visible,
            old(self).pages@.len() == 1 ==> {
                &&& final(self).pages@.len() == 1
                &&& is_fresh_page(final(self).pages@[0], old(self).next_page_id)
                &&& final(self).active_page == 0
                &&& final(self).next_page_id == log_analysis::next_generation(
                    old(self).next_page_id,
                )
            },
            old(self).pages@.len() > 1 ==> {
                let rest = old(self).pages@.remove(old(self).active_page as int);
                &&& final(self).pages@ == rest
                &&& final(self).active_page == if old(self).active_page < rest.len() {
                    old(self).active_page as int
                } else {
                    rest.len() - 1
                }
                &&& final(self).next_page_id == old(self).next_page_id
            },
    {
        self.pages.remove(self.active_page);
        if self.pages.len() == 0 {
            let id = self.next_page_id;
            self.next_page_id = self.next_page_id.wrapping_add(1);
            self.pages.push(new_regex_page(id));
        }
        if self.active_page >= self.pages.len() {
            self.active_page = self.pages.len() - 1;
        }
        self.pages[self.active_page].pattern.clone()
    }

    /// Starts an extraction on the active page. The table is to be handed back with the id and
    /// the generation that come out.
    pub fn begin_extraction(&mut self, pattern: String) -> (r: (u64, u64))
        requires
            old(self).wf(),
        ensures
            final(self).wf(),
            r == (
                old(self).active().id,
                log_analysis::next_generation(old(self).active().generation),
            ),
            final(self).pages@ == old(self).pages@.update(
                old(self).active_page as int,
                final(self).active(),
            ),
            final(self).active() == (RegexTablePage {
                pattern,
                table_pattern: pattern,
                table: final(self).active().table,
                running: true,
                generation: r.1,
                ..old(self).active()
            }),
            final(self).active().table@ == regex_table::empty_table(),
            final(self).active_page == old(self).active_page,
            final(self).visible == old(self).visible,
            final(self).next_page_id == old(self).next_page_id,
    {
        let i = self.active_page;
        let generation = self.pages[i].generation.wrapping_add(1);
        let id = self.pages[i].id;
        self.pages[i].table_pattern = pattern.clone();
        self.pages[i].pattern = pattern;
        self.pages[i].generation = generation;
        self.pages[i].table = RecordTable::default();
        self.pages[i].running = true;
        (id, generation)
    }

    /// Takes over a table, unless its page is gone or it is out of date.
    pub fn finish_extraction(&mut self, id: u64, generation: u64, table: RecordTable) -> (r: bool)
        requires
            old(self).wf(),
        ensures
            final(self).wf(),
            match page_with_id(old(self).pages@, id, 0) {
                Some(i) => r == (old(self).pages@[i as int].generation == generation) && (r
                    ==> final(self).pages@ == old(self).pages@.update(
                    i as int,
                    RegexTablePage {
                        table,
                        running: false,
                        table_revision: log_analysis::next_generation(
                            old(self).pages@[i as int].table_revision,
                        ),
                        ..old(self).pages@[i as int]
                    },
                )),
                None => !r,
            },
            !r ==> *final(self) == *old(self),
            final(self).active_page == old(self).active_page,
            final(self).visible == old(self).visible,
            final(self).next_page_id == old(self).next_page_id,
    {
        let mut i: usize = 0;
        while i < self.pages.len()
            invariant
                *self == *old(self),
                self.wf(),
                i <= self.pages@.len(),
                page_with_id(self.pages@, id, i as nat) == page_with_id(self.pages@, id, 0),
            decreases self.pages@.len() - i,
        {
            if self.pages[i].id == id {
                if self.pages[i].generation != generation {
                    return false;
                }
                let revision = self.pages[i].table_revision.wrapping_add(1);
                self.pages[i].table = table;
                self.pages[i].running = false;
                self.pages[i].table_revision = revision;
                return true;
            }
            i += 1;
        }
        false
    }

    /// Empties the active page. What is still under way will be out of date.
    pub fn clear_extraction(&mut self)
        requires
            old(self).wf(),
        ensures
            final(self).wf(),
            final(self).pages@ == old(self).pages@.update(
                old(self).active_page as int,
                final(self).active(),
            ),
            final(self).active() == (RegexTablePage {
                pattern: final(self).active().pattern,
                table_pattern: final(self).active().table_pattern,
                table: final(self).active().table,
                running: false,
                generation: log_analysis::next_generation(old(self).active().generation),
                ..old(self).active()
            }),
            final(self).active().pattern@.len() == 0,
            final(self).active().table_pattern@.len() == 0,
            final(self).active().table@ == regex_table::empty_table(),
            final(self).active_page == old(self).active_page,
            final(self).visible == old(self).visible,
            final(self).next_page_id == old(self).next_page_id,
    {
        let i = self.active_page;
        let generation = self.pages[i].generation.wrapping_add(1);
        self.pages[i].pattern = String::new();
        self.pages[i].generation = generation;
        self.pages[i].table_pattern = String::new();
        self.pages[i].table = RecordTable::default();
        self.pages[i].running = false;
    }

    /// What tells one state of the shown table from another.
    pub fn table_key(&self, pattern: &str) -> (r: String)
        requires
            self.wf(),
        ensures
            r@ == self.key_for(pattern@),
    {
        text::concat4(
            "regex:",
            pattern,
            ":",
            &text::decimal_text(self.pages[self.active_page].table_revision),
        )
    }

    /// The table to show for a pattern: the one of the active page, if it is for that pattern.
    pub fn current_table(&self, pattern: &str) -> (r: RecordTable)
        requires
            self.wf(),
        ensures
            r@ == self.table_for(pattern@),
    {
        let page = &self.pages[self.active_page];
        if text::same_text(&page.table_pattern, pattern) {
            page.table.clone()
        } else {
            RecordTable::default()
        }
    }

    /// Whether the table for a pattern is being extracted on the active page.
    pub fn is_running(&self, pattern: &str) -> (r: bool)
        requires
            self.wf(),
        ensures
            r == (self.active().running && self.active().table_pattern@ == pattern@),
    {
        let page = &self.pages[self.active_page];
        page.running && text::same_text(&page.table_pattern, pattern)
    }

    /// Takes over a table as the shown one, unless it is shown already; then its columns that
    /// had no heading yet get one, which is their name. Says whether there was anything to do.
    pub fn sync_virtual_table(&mut self, key: &str, table: &RecordTable) -> (r: bool)
        requires
            old(self).wf(),
        ensures
            final(self).wf(),
            r == (old(self).active().rendered_table_key@ != key@),
            !r ==> *final(self) == *old(self),
            r ==> {
                &&& final(self).pages@ == old(self).pages@.update(
                    old(self).active_page as int,
                    final(self).active(),
                )
                &&& final(self).active() == (RegexTablePage {
                    table: final(self).active().table,
                    headers: final(self).active().headers,
                    rendered_table_key: final(self).active().rendered_table_key,
                    ..old(self).active()
                })
                &&& final(self).active().table@ == table@
                &&& final(self).active().rendered_table_key@ == key@
                &&& header_views(final(self).active().headers@) == with_headers(
                    header_views(old(self).active().headers@),
                    text::texts(table.columns@),
                )
            },
            final(self).active_page == old(self).active_page,
            final(self).visible == old(self).visible,
            final(self).next_page_id == old(self).next_page_id,
    {
        let at = self.active_page;
        if text::same_text(&self.pages[at].rendered_table_key, key) {
            return false;
        }
        let ghost columns = text::texts(table.columns@);
        let ghost known = header_views(self.pages@[at as int].headers@);
        let mut headers: Vec<(String, String)> = copy_headers(&self.pages[at].headers);
        let mut i: usize = 0;
        assert(with_headers(known, columns.take(0)) =~= known);
        while i < table.columns.len()
            invariant
                *self == *old(self),
                i <= table.columns@.len(),
                columns == text::texts(table.columns@),
                header_views(headers@) == with_headers(known, columns.take(i as int)),
            decreases table.columns@.len() - i,
        {
            assert(columns.take(i + 1).drop_last() =~= columns.take(i as int));
            assert(columns.take(i + 1).last() == table.columns@[i as int]@);
            let column = &table.columns[i];
            if !has_header(&headers, column) {
                let ghost before = headers@;
                headers.push((column.clone(), column.clone()));
                assert(header_views(headers@) =~= header_views(before).push((column@, column@)));
            }
            i += 1;
        }
        assert(columns.take(i as int) =~= columns);
        self.pages[at].table = table.clone();
        self.pages[at].headers = headers;
        self.pages[at].rendered_table_key = key.to_owned();
        true
    }

    /// The text of a cell of the active page, if there is such a cell.
    pub fn cell(&self, row: usize, column: usize) -> (r: Option<String>)
        requires
            self.wf(),
        ensures
            match r {
                Some(value) => self.has_cell((row, column)) && value@
                    == self.active().table@.rows[row as int][column as int],
                None => !self.has_cell((row, column)),
            },
    {
        let page = &self.pages[self.active_page];
        if row < page.table.rows.len() {
            let cells = &page.table.rows[row];
            assert(self.active().table@.rows[row as int] == text::texts(cells@));
            if column < cells.len() {
                return Some(cells[column].clone());
            }
        }
        None
    }

    /// The text to copy when a key is pressed: that of the selected cell, on the primary modifier
    /// and the key `c`.
    pub fn on_key(
        &self,
        focused: bool,
        primary: bool,
        key: &str,
        selected: Option<(usize, usize)>,
    ) -> (r: Option<String>)
        requires
            self.wf(),
        ensures
            match r {
                Some(value) => {
                    &&& focused && primary && key@ == "c"@
                    &&& selected matches Some((row, column))
                    &&& self.has_cell((row, column))
                    &&& value@ == self.active().table@.rows[row as int][column as int]
                },
                None => !focused || !primary || key@ != "c"@ || (selected matches Some(place)
                    ==> !self.has_cell(place)),
            },
    {
        if !primary || !text::same_text(key, "c") || !focused {
            return None;
        }
        match selected {
            Some((row, column)) => self.cell(row, column),
            None => None,
        }
    }

    /// There is a cell at a row and a column of the active page.
    pub open spec fn has_cell(&self, place: (usize, usize)) -> bool {
        place.0 < self.active().table@.rows.len() && place.1
            < self.active().table@.rows[place.0 as int].len()
    }

    /// The headings of the columns of the active page: those that the user gave, or else the
    /// names of the columns.
    pub fn export_headers(&self) -> (r: Vec<String>)
        requires
            self.wf(),
        ensures
            text::texts(r@) == self.active().table@.columns.map_values(
                |column: Seq<char>| heading(header_views(self.active().headers@), column),
            ),
    {
        let page = &self.pages[self.active_page];
        let ghost wanted = text::texts(page.table.columns@).map_values(
            |column: Seq<char>| heading(header_views(page.headers@), column),
        );
        let mut out: Vec<String> = Vec::new();
        let mut i: usize = 0;
        while i < page.table.columns.len()
            invariant
                i <= page.table.columns@.len(),
                wanted == text::texts(page.table.columns@).map_values(
                    |column: Seq<char>| heading(header_views(page.headers@), column),
                ),
                out@.len() == i,
                forall|k: int| 0 <= k < i ==> (#[trigger] out@[k])@ == wanted[k],
            decreases page.table.columns@.len() - i,
        {
            out.push(heading_of(&page.headers, &page.table.columns[i]));
            i += 1;
        }
        assert(text::texts(out@) =~= wanted);
        out
    }

    /// The name of the file that the active page is exported to. There is none where there is
    /// nothing to export.
    pub fn export_csv(&self) -> (r: Option<String>)
        requires
            self.wf(),
        ensures
            match r {
                Some(name) => self.active().table@.rows.len() > 0 && name@ == "regex-table-"@
                    + text::decimal(self.active().id as nat) + ".csv"@,
                None => self.active().table@.rows.len() == 0,
            },
    {
        let page = &self.pages[self.active_page];
        if page.table.rows.len() == 0 {
            None
        } else {
            Some(text::concat3("regex-table-", &text::decimal_text(page.id), ".csv"))
        }
    }
}

/// What a button of the panel is for.
#[derive(Clone, Copy, Debug, PartialEq, Eq, Structural)]
pub enum TableButton {
    AddPage,
    RemovePage,
    Export,
}

/// What a button of the panel says.
pub open spec fn button_words(button: TableButton, lang: Language) -> &'static str {
    match button {
        TableButton::AddPage => match lang {
            Language::ZhCn => "新建正则表格标签",
            Language::EnUs => "New regex table tab",
        },
        TableButton::RemovePage => match lang {
            Language::ZhCn => "删除当前正则表格标签",
            Language::EnUs => "Delete current regex table tab",
        },
        TableButton::Export => match lang {
            Language::ZhCn => "导出当前表格为 CSV",
            Language::EnUs => "Export current table as CSV",
        },
    }
}

/// What a button of the panel says.
pub fn button_tip(button: TableButton, lang: Language) -> (r: &'static str)
    ensures
        r@ == button_words(button, lang)@,
{
    match button {
        TableButton::AddPage => match lang {
            Language::ZhCn => "新建正则表格标签",
            Language::EnUs => "New regex table tab",
        },
        TableButton::RemovePage => match lang {
            Language::ZhCn => "删除当前正则表格标签",
            Language::EnUs => "Delete current regex table tab",
        },
        TableButton::Export => match lang {
            Language::ZhCn => "导出当前表格为 CSV",
            Language::EnUs => "Export current table as CSV",
        },
    }
}

/// What stands below the pattern.
#[derive(Debug)]
pub enum TableNotice {
    /// What is wrong with the pattern or the file.
    Error(String),
    /// The table is being extracted.
    Parsing,
    /// There is neither a pattern nor anything to infer columns from.
    Prompt,
    /// Nothing matches.
    NoMatches,
    /// The table itself.
    Table,
}

/// The page of a panel as it is shown: the label of each page, which of them is the active one,
/// and what stands below the pattern.
pub struct TablePanelView {
    pub labels: Vec<String>,
    pub active: usize,
    pub notice: TableNotice,
}

/// `notice` stands below the pattern for a table.
pub open spec fn is_notice(
    notice: TableNotice,
    table: regex_table::TableView,
    pattern: Seq<char>,
    running: bool,
) -> bool {
    match table.error {
        Some(error) => notice is Error && notice->Error_0@ == error,
        None => if table.columns.len() == 0 || table.matched == 0 {
            if running {
                notice is Parsing
            } else if text::trim(pattern).len() == 0 {
                notice is Prompt
            } else {
                notice is NoMatches
            }
        } else {
            notice is Table
        },
    }
}

impl RegexTablePanel {
    /// The panel as it is shown for the pattern that stands in it. Where that is a table, it is
    /// taken over as the shown one.
    pub fn render(&mut self, pattern: &str) -> (r: TablePanelView)
        requires
            old(self).wf(),
        ensures
            final(self).wf(),
            text::texts(r.labels@) == old(self).pages@.map_values(
                |page: RegexTablePage| "Table "@ + text::decimal(page.id as nat),
            ),
            r.active == old(self).active_page,
            is_notice(
                r.notice,
                old(self).table_for(pattern@),
                pattern@,
                old(self).active().running && old(self).active().table_pattern@ == pattern@,
            ),
            !(r.notice is Table) ==> *final(self) == *old(self),
            r.notice is Table ==> {
                &&& final(self).pages@ == old(self).pages@.update(
                    old(self).active_page as int,
                    final(self).active(),
                )
                &&& final(self).active() == (RegexTablePage {
                    table: final(self).active().table,
                    headers: final(self).active().headers,
                    rendered_table_key: final(self).active().rendered_table_key,
                    ..old(self).active()
                })
                &&& final(self).active().rendered_table_key@ == old(self).key_for(pattern@)
            },
            r.notice is Table && old(self).active().rendered_table_key@ == old(self).key_for(
                pattern@,
            ) ==> *final(self) == *old(self),
            r.notice is Table && old(self).active().rendered_table_key@ != old(self).key_for(
                pattern@,
            ) ==> {
                &&& final(self).active().table@ == old(self).table_for(pattern@)
                &&& header_views(final(self).active().headers@) == with_headers(
                    header_views(old(self).active().headers@),
                    old(self).table_for(pattern@).columns,
                )
            },
            final(self).active_page == old(self).active_page,
            final(self).visible == old(self).visible,
            final(self).next_page_id == old(self).next_page_id,
    {
        let ghost wanted = self.pages@.map_values(
            |page: RegexTablePage| "Table "@ + text::decimal(page.id as nat),
        );
        let mut labels: Vec<String> = Vec::new();
        let mut i: usize = 0;
        while i < self.pages.len()
            invariant
                *self == *old(self),
                self.wf(),
                i <= self.pages@.len(),
                wanted == self.pages@.map_values(
                    |page: RegexTablePage| "Table "@ + text::decimal(page.id as nat),
                ),
                labels@.len() == i,
                forall|k: int| 0 <= k < i ==> (#[trigger] labels@[k])@ == wanted[k],
            decreases self.pages@.len() - i,
        {
            labels.push(text::concat2("Table ", &text::decimal_text(self.pages[i].id)));
            i += 1;
        }
        assert(text::texts(labels@) =~= wanted);
        let table = self.current_table(pattern);
        let key = self.table_key(pattern);
        let running = self.is_running(pattern);
        let active = self.active_page;
        let notice = match &table.error {
            Some(error) => TableNotice::Error(error.clone()),
            None => if table.columns.len() == 0 || table.matched == 0 {
                if running {
                    TableNotice::Parsing
                } else if text::trimmed(&text::chars_of(pattern)).len() == 0 {
                    TableNotice::Prompt
                } else {
                    TableNotice::NoMatches
                }
            } else {
                self.sync_virtual_table(&key, &table);
                TableNotice::Table
            },
        };
        TablePanelView { labels, active, notice }
    }

    /// The table to show for a pattern: the one of the active page, if it is for that pattern.
    pub open spec fn table_for(&self, pattern: Seq<char>) -> regex_table::TableView {
        if self.active().table_pattern@ == pattern {
            self.active().table@
        } else {
            regex_table::empty_table()
        }
    }

    /// What tells one state of the shown table from another.
    pub open spec fn key_for(&self, pattern: Seq<char>) -> Seq<char> {
        "regex:"@ + pattern + ":"@ + text::decimal(self.active().table_revision as nat)
    }
}

/// Headings by their texts.
pub open spec fn header_views(headers: Seq<(String, String)>) -> Seq<(Seq<char>, Seq<char>)> {
    headers.map_values(|header: (String, String)| (header.0@, header.1@))
}

/// A column has a heading.
pub open spec fn is_headed(headers: Seq<(Seq<char>, Seq<char>)>, column: Seq<char>) -> bool {
    exists|i: int| 0 <= i < headers.len() && (#[trigger] headers[i]).0 == column
}

/// Headings with one more for each column that has none: the name of the column.
pub open spec fn with_headers(
    headers: Seq<(Seq<char>, Seq<char>)>,
    columns: Seq<Seq<char>>,
) -> Seq<(Seq<char>, Seq<char>)>
    decreases columns.len(),
{
    if columns.len() == 0 {
        headers
    } else {
        let before = with_headers(headers, columns.drop_last());
        if is_headed(before, columns.last()) {
            before
        } else {
            before.push((columns.last(), columns.last()))
        }
    }
}

/// The heading of a column: the first that was given to it, or else its name.
pub open spec fn heading(headers: Seq<(Seq<char>, Seq<char>)>, column: Seq<char>) -> Seq<char>
    decreases headers.len(),
{
    if headers.len() == 0 {
        column
    } else if headers[0].0 == column {
        headers[0].1
    } else {
        heading(headers.skip(1), column)
    }
}

fn copy_headers(headers: &Vec<(String, String)>) -> (r: Vec<(String, String)>)
    ensures
        r@ == headers@,
{
    let mut out: Vec<(String, String)> = Vec::new();
    let mut i: usize = 0;
    while i < headers.len()
        invariant
            i <= headers@.len(),
            out@ == headers@.take(i as int),
        decreases headers@.len() - i,
    {
        out.push((headers[i].0.clone(), headers[i].1.clone()));
        assert(headers@.take(i + 1) =~= headers@.take(i as int).push(headers@[i as int]));
        i += 1;
    }
    assert(headers@.take(i as int) =~= headers@);
    out
}

fn has_header(headers: &Vec<(String, String)>, column: &String) -> (r: bool)
    ensures
        r == is_headed(header_views(headers@), column@),
{
    let ghost views = header_views(headers@);
    let mut i: usize = 0;
    while i < headers.len()
        invariant
            i <= headers@.len(),
            views == header_views(headers@),
            forall|k: int| 0 <= k < i ==> (#[trigger] views[k]).0 != column@,
        decreases headers@.len() - i,
    {
        assert(views[i as int].0 == headers@[i as int].0@);
        if headers[i].0 == *column {
            return true;
        }
        i += 1;
    }
    false
}

fn heading_of(headers: &Vec<(String, String)>, column: &String) -> (r: String)
    ensures
        r@ == heading(header_views(headers@), column@),
{
    let ghost views = header_views(headers@);
    let mut i: usize = 0;
    assert(views.skip(0) =~= views);
    while i < headers.len()
        invariant
            i <= headers@.len(),
            views == header_views(headers@),
            heading(views.skip(i as int), column@) == heading(views, column@),
        decreases headers@.len() - i,
    {
        assert(views.skip(i as int)[0] == (headers@[i as int].0@, headers@[i as int].1@));
        assert(views.skip(i as int).skip(1) =~= views.skip(i + 1));
        if headers[i].0 == *column {
            return headers[i].1.clone();
        }
        i += 1;
    }
    column.clone()
}

/// A text that has to be put in quotes in a file of comma-separated values.
pub open spec fn needs_quotes(value: Seq<char>) -> bool {
    exists|i: int|
        0 <= i < value.len() && (#[trigger] value[i] == ',' || value[i] == '"' || value[i] == '\r'
            || value[i] == '\n')
}

/// A text with each of its quotes doubled.
pub open spec fn doubled(value: Seq<char>) -> Seq<char>
    decreases value.len(),
{
    if value.len() == 0 {
        Seq::empty()
    } else if value.last() == '"' {
        doubled(value.drop_last()).push('"').push('"')
    } else {
        doubled(value.drop_last()).push(value.last())
    }
}

/// A text as a field of comma-separated values.
pub open spec fn field(value: Seq<char>) -> Seq<char> {
    if needs_quotes(value) {
        seq!['"'] + doubled(value) + seq!['"']
    } else {
        value
    }
}

/// A text as a field of comma-separated values.
pub fn csv_field(value: &str) -> (r: String)
    ensures
        r@ == field(value@),
{
    let chars = text::chars_of(value);
    let mut quotes = false;
    let mut i: usize = 0;
    while i < chars.len()
        invariant
            i <= chars@.len(),
            quotes == exists|k: int|
                0 <= k < i && (#[trigger] chars@[k] == ',' || chars@[k] == '"' || chars@[k] == '\r'
                    || chars@[k] == '\n'),
        decreases chars@.len() - i,
    {
        if chars[i] == ',' || chars[i] == '"' || chars[i] == '\r' || chars[i] == '\n' {
            assert(chars@[i as int] == ',' || chars@[i as int] == '"' || chars@[i as int] == '\r'
                || chars@[i as int] == '\n');
            quotes = true;
        }
        i += 1;
    }
    if !quotes {
        return value.to_owned();
    }
    let mut out: Vec<char> = Vec::new();
    out.push('"');
    let mut j: usize = 0;
    assert(out@ =~= seq!['"'] + doubled(chars@.take(0)));
    while j < chars.len()
        invariant
            j <= chars@.len(),
            out@ == seq!['"'] + doubled(chars@.take(j as int)),
        decreases chars@.len() - j,
    {
        assert(chars@.take(j + 1).drop_last() =~= chars@.take(j as int));
        if chars[j] == '"' {
            out.push('"');
        }
        out.push(chars[j]);
        assert(out@ =~= seq!['"'] + doubled(chars@.take(j + 1)));
        j += 1;
    }
    assert(chars@.take(j as int) =~= chars@);
    out.push('"');
    assert(out@ =~= field(chars@));
    text::text_of(&out)
}

/// What a reader of comma-separated values makes of text between quotes: of two quotes one.
pub open spec fn undoubled(value: Seq<char>) -> Seq<char>
    decreases value.len(),
{
    if value.len() >= 2 && value.last() == '"' && value[value.len() - 2] == '"' {
        undoubled(value.drop_last().drop_last()).push('"')
    } else if value.len() > 0 {
        undoubled(value.drop_last()).push(value.last())
    } else {
        Seq::empty()
    }
}

/// What a reader of comma-separated values makes of a field.
pub open spec fn read_field(value: Seq<char>) -> Seq<char> {
    if value.len() >= 2 && value[0] == '"' {
        undoubled(value.subrange(1, value.len() - 1))
    } else {
        value
    }
}

proof fn lemma_undoubled(value: Seq<char>)
    ensures
        undoubled(doubled(value)) == value,
    decreases value.len(),
{
    if value.len() > 0 {
        let rest = value.drop_last();
        lemma_undoubled(rest);
        let inner = doubled(rest);
        if value.last() == '"' {
            let all = inner.push('"').push('"');
            assert(all.drop_last().drop_last() =~= inner);
        } else {
            assert(inner.push(value.last()).drop_last() =~= inner);
        }
        assert(value =~= rest.push(value.last()));
    } else {
        assert(undoubled(doubled(value)) =~= value);
    }
}

/// A field reads back as the text that was written.
pub proof fn fields_read_back(value: Seq<char>)
    ensures
        read_field(field(value)) == value,
{
    if needs_quotes(value) {
        let whole = field(value);
        assert(whole.subrange(1, whole.len() - 1) =~= doubled(value));
        lemma_undoubled(value);
    } else if value.len() >= 2 && value[0] == '"' {
        assert(needs_quotes(value));
    }
}

/// Within quotes there is no single quote, so that the end of a field in quotes can be told:
/// the quotes in a doubled text come in pairs.
pub proof fn quotes_come_in_pairs(value: Seq<char>)
    ensures
        count_quotes(doubled(value)) == 2 * count_quotes(value),
    decreases value.len(),
{
    reveal_with_fuel(count_quotes, 3);
    if value.len() > 0 {
        quotes_come_in_pairs(value.drop_last());
        let inner = doubled(value.drop_last());
        assert(inner.push('"').push('"').drop_last() =~= inner.push('"'));
        assert(inner.push('"').drop_last() =~= inner);
        assert(inner.push(value.last()).drop_last() =~= inner);
    }
}

/// The number of quotes in a text.
pub open spec fn count_quotes(value: Seq<char>) -> nat
    decreases value.len(),
{
    if value.len() == 0 {
        0
    } else {
        count_quotes(value.drop_last()) + if value.last() == '"' {
            1nat
        } else {
            0
        }
    }
}

/// A row as a line of comma-separated values.
pub open spec fn csv_line(values: Seq<Seq<char>>) -> Seq<char> {
    text::join(values.map_values(|value: Seq<char>| field(value)), ","@).push('\n')
}

/// The first `count` rows as lines of comma-separated values.
pub open spec fn csv_lines(rows: Seq<Seq<Seq<char>>>, count: nat) -> Seq<char>
    decreases count,
{
    if count == 0 {
        Seq::empty()
    } else {
        csv_lines(rows, (count - 1) as nat) + csv_line(rows[count - 1])
    }
}

/// A row as a line of comma-separated values.
fn line_of(values: &Vec<String>) -> (r: Vec<char>)
    ensures
        r@ == csv_line(text::texts(values@)),
{
    let ghost wanted = text::texts(values@).map_values(|value: Seq<char>| field(value));
    let mut fields: Vec<Vec<char>> = Vec::new();
    let mut i: usize = 0;
    while i < values.len()
        invariant
            i <= values@.len(),
            wanted == text::texts(values@).map_values(|value: Seq<char>| field(value)),
            text::pieces(fields@) == wanted.take(i as int),
        decreases values@.len() - i,
    {
        let one = text::chars_of(&csv_field(&values[i]));
        let ghost before = fields@;
        fields.push(one);
        assert(text::pieces(fields@) =~= text::pieces(before).push(one@));
        assert(wanted.take(i + 1) =~= wanted.take(i as int).push(wanted[i as int]));
        i += 1;
    }
    assert(wanted.take(i as int) =~= wanted);
    let mut out = text::joined(&fields, ",");
    out.push('\n');
    out
}

/// A table as comma-separated values: a line of headings, and a line for each row.
pub fn write_regex_csv(headers: &Vec<String>, rows: &Arc<Vec<Vec<String>>>) -> (r: String)
    ensures
        r@ == csv_line(text::texts(headers@)) + csv_lines(
            regex_table::cells(rows@),
            rows@.len(),
        ),
{
    let mut out = line_of(headers);
    let ghost first = out@;
    let ghost all = regex_table::cells(rows@);
    let mut i: usize = 0;
    assert(out@ =~= first + csv_lines(all, 0));
    while i < rows.len()
        invariant
            i <= rows@.len(),
            all == regex_table::cells(rows@),
            out@ == first + csv_lines(all, i as nat),
        decreases rows@.len() - i,
    {
        let line = line_of(&rows[i]);
        text::append_chars(&mut out, &line);
        assert(all[i as int] == text::texts(rows@[i as int]@));
        assert(out@ =~= first + csv_lines(all, (i + 1) as nat));
        i += 1;
    }
    text::text_of(&out)
}

/// A page is found by its number: it is the first one that carries it.
pub proof fn pages_are_found_by_their_numbers(pages: Seq<RegexTablePage>, id: u64, from: nat)
    ensures
        match page_with_id(pages, id, from) {
            Some(i) => from <= i < pages.len() && pages[i as int].id == id && forall|k: int|
                from <= k < i ==> (#[trigger] pages[k]).id != id,
            None => forall|k: int| from <= k < pages.len() ==> (#[trigger] pages[k]).id != id,
        },
    decreases pages.len() - from,
{
    if from < pages.len() && pages[from as int].id != id {
        pages_are_found_by_their_numbers(pages, id, from + 1);
    }
}

/// Showing a table keeps the headings that are there and gives each column without one its name.
pub proof fn columns_get_their_names_as_headings(
    headers: Seq<(Seq<char>, Seq<char>)>,
    columns: Seq<Seq<char>>,
    column: Seq<char>,
)
    ensures
        with_headers(headers, columns).len() >= headers.len(),
        with_headers(headers, columns).take(headers.len() as int) == headers,
        forall|i: int|
            headers.len() <= i < with_headers(headers, columns).len() ==> (
            #[trigger] with_headers(headers, columns)[i]).0 == with_headers(headers, columns)[i].1
                && columns.contains(with_headers(headers, columns)[i].0),
        columns.contains(column) ==> exists|i: int|
            0 <= i < with_headers(headers, columns).len() && (
            #[trigger] with_headers(headers, columns)[i]).0 == column,
        heading(with_headers(headers, columns), column) == heading(headers, column),
    decreases columns.len(),
{
    let after = with_headers(headers, columns);
    if columns.len() == 0 {
        assert(after.take(headers.len() as int) =~= headers);
    } else {
        let rest = columns.drop_last();
        let last = columns.last();
        let before = with_headers(headers, rest);
        columns_get_their_names_as_headings(headers, rest, column);
        assert(after.take(headers.len() as int) =~= before.take(headers.len() as int));
        assert forall|i: int| headers.len() <= i < after.len() implies (#[trigger] after[i]).0
            == after[i].1 && columns.contains(after[i].0) by {
            if i < before.len() {
                assert(after[i] == before[i]);
                let k = choose|k: int| 0 <= k < rest.len() && rest[k] == before[i].0;
                assert(columns[k] == after[i].0);
            } else {
                assert(columns[columns.len() - 1] == last);
            }
        }
        if columns.contains(column) {
            if column == last {
                if is_headed(before, last) {
                    let i = choose|i: int| 0 <= i < before.len() && (#[trigger] before[i]).0 == last;
                    assert(after[i].0 == column);
                } else {
                    assert(after[before.len() as int].0 == column);
                }
            } else {
                let k = choose|k: int| 0 <= k < columns.len() && columns[k] == column;
                assert(rest[k] == column);
                let i = choose|i: int| 0 <= i < before.len() && (#[trigger] before[i]).0 == column;
                assert(after[i].0 == column);
            }
        }
        if !is_headed(before, last) {
            lemma_heading_of_more(before, last, column);
        }
    }
}

proof fn lemma_heading_of_more(
    headers: Seq<(Seq<char>, Seq<char>)>,
    name: Seq<char>,
    column: Seq<char>,
)
    ensures
        heading(headers.push((name, name)), column) == heading(headers, column),
    decreases headers.len(),
{
    let more = headers.push((name, name));
    if headers.len() == 0 {
        assert(more.skip(1) =~= Seq::empty());
        assert(heading(more.skip(1), column) == column);
    } else if headers[0].0 != column {
        lemma_heading_of_more(headers.skip(1), name, column);
        assert(more.skip(1) =~= headers.skip(1).push((name, name)));
    }
}

/// The heading of a column is what the user gave it first, or else its name.
pub proof fn headings_are_found_by_their_columns(
    headers: Seq<(Seq<char>, Seq<char>)>,
    column: Seq<char>,
    i: int,
)
    requires
        0 <= i <= headers.len(),
        forall|k: int| 0 <= k < i ==> (#[trigger] headers[k]).0 != column,
        i < headers.len() ==> headers[i].0 == column,
    ensures
        heading(headers, column) == if i < headers.len() {
            headers[i].1
        } else {
            column
        },
    decreases headers.len(),
{
    if i > 0 {
        let rest = headers.skip(1);
        assert(headers[0].0 != column);
        assert forall|k: int| 0 <= k < i - 1 implies (#[trigger] rest[k]).0 != column by {
            assert(rest[k] == headers[k + 1]);
        }
        headings_are_found_by_their_columns(rest, column, i - 1);
    }
}

/// A field without a comma, a quote or a line ending stands as it is; any other stands between
/// quotes, with each quote in it doubled.
pub proof fn only_special_fields_are_quoted(a: Seq<char>, c: char, b: Seq<char>)
    ensures
        (forall|i: int|
            0 <= i < a.len() ==> #[trigger] a[i] != ',' && a[i] != '"' && a[i] != '\r' && a[i]
                != '\n') ==> field(a) == a,
        a.contains(',') || a.contains('"') || a.contains('\r') || a.contains('\n') ==> field(a)
            == seq!['"'] + doubled(a) + seq!['"'],
        doubled(a + b) == doubled(a) + doubled(b),
        doubled(seq![c]) == if c == '"' {
            seq!['"', '"']
        } else {
            seq![c]
        },
    decreases b.len(),
{
    if a.contains(',') {
        let i = choose|i: int| 0 <= i < a.len() && a[i] == ',';
        assert(a[i] == ',');
    }
    if a.contains('"') {
        let i = choose|i: int| 0 <= i < a.len() && a[i] == '"';
        assert(a[i] == '"');
    }
    if a.contains('\r') {
        let i = choose|i: int| 0 <= i < a.len() && a[i] == '\r';
        assert(a[i] == '\r');
    }
    if a.contains('\n') {
        let i = choose|i: int| 0 <= i < a.len() && a[i] == '\n';
        assert(a[i] == '\n');
    }
    if b.len() == 0 {
        assert(a + b =~= a);
    } else {
        assert((a + b).drop_last() =~= a + b.drop_last());
        only_special_fields_are_quoted(a, c, b.drop_last());
    }
    assert(doubled(a + b) =~= doubled(a) + doubled(b));
    let one = seq![c];
    assert(one.drop_last() =~= Seq::<char>::empty());
    assert(doubled(Seq::<char>::empty()) =~= Seq::<char>::empty());
    assert(doubled(one) =~= if c == '"' {
        seq!['"', '"']
    } else {
        seq![c]
    });
}

/// A table is written row by row, each row on a line of its own with commas between its fields.
pub proof fn rows_are_written_one_after_another(
    rows: Seq<Seq<Seq<char>>>,
    more: Seq<Seq<Seq<char>>>,
    row: Seq<Seq<char>>,
)
    ensures
        csv_lines(rows + more, (rows + more).len()) == csv_lines(rows, rows.len()) + csv_lines(
            more,
            more.len(),
        ),
        csv_lines(seq![row], 1) == text::join(
            row.map_values(|value: Seq<char>| field(value)),
            ","@,
        ) + seq!['\n'],
{
    lemma_rows_follow(rows, more, more.len());
    assert(csv_lines(seq![row], 0) =~= Seq::<char>::empty());
    assert(csv_lines(seq![row], 1) =~= text::join(
        row.map_values(|value: Seq<char>| field(value)),
        ","@,
    ) + seq!['\n']);
}

proof fn lemma_rows_follow(rows: Seq<Seq<Seq<char>>>, more: Seq<Seq<Seq<char>>>, count: nat)
    requires
        count <= more.len(),
    ensures
        csv_lines(rows + more, rows.len() + count) == csv_lines(rows, rows.len()) + csv_lines(
            more,
            count,
        ),
    decreases count,
{
    let all = rows + more;
    if count == 0 {
        lemma_rows_keep(all, rows, rows.len());
    } else {
        lemma_rows_follow(rows, more, (count - 1) as nat);
        assert(all[rows.len() + count - 1] == more[count - 1]);
    }
    assert(csv_lines(all, rows.len() + count) =~= csv_lines(rows, rows.len()) + csv_lines(
        more,
        count,
    ));
}

proof fn lemma_rows_keep(a: Seq<Seq<Seq<char>>>, b: Seq<Seq<Seq<char>>>, count: nat)
    requires
        count <= a.len(),
        count <= b.len(),
        forall|k: int| 0 <= k < count ==> a[k] == b[k],
    ensures
        csv_lines(a, count) == csv_lines(b, count),
    decreases count,
{
    if count > 0 {
        lemma_rows_keep(a, b, (count - 1) as nat);
    }
}

/// The key of a shown table changes with the pattern, and with each extraction for one pattern.
pub proof fn keys_tell_tables_apart(a: RegexTablePanel, b: RegexTablePanel, p: Seq<char>, q: Seq<char>)
    ensures
        a.key_for(p) == b.key_for(p) ==> a.active().table_revision == b.active().table_revision,
        a.active().table_revision == b.active().table_revision && a.key_for(p) == b.key_for(q)
            ==> p == q,
{
    let x = text::decimal(a.active().table_revision as nat);
    let y = text::decimal(b.active().table_revision as nat);
    let head = "regex:"@;
    let mark = ":"@;
    if a.key_for(p) == b.key_for(p) {
        let n = (head + p + mark).len() as int;
        assert(a.key_for(p).skip(n) =~= x);
        assert(b.key_for(p).skip(n) =~= y);
        text::numbers_read_back(a.active().table_revision as nat, Seq::empty(), 0);
        text::numbers_read_back(b.active().table_revision as nat, Seq::empty(), 0);
    }
    if a.active().table_revision == b.active().table_revision && a.key_for(p) == b.key_for(q) {
        assert(a.key_for(p).len() == b.key_for(q).len());
        assert(p.len() == q.len());
        let n = head.len() as int;
        assert(a.key_for(p).subrange(n, n + p.len()) =~= p);
        assert(b.key_for(q).subrange(n, n + q.len()) =~= q);
    }
}

/// What stands below the pattern: an error before anything else; the table if there is one with a
/// column and a row; else that it is being extracted, as long as it is; else, without a pattern,
/// what to do, and with one that nothing matches.
pub proof fn errors_are_shown_before_anything_else(
    notice: TableNotice,
    table: regex_table::TableView,
    pattern: Seq<char>,
    running: bool,
)
    requires
        is_notice(notice, table, pattern, running),
    ensures
        notice is Error <==> table.error is Some,
        notice is Table <==> table.error is None && table.columns.len() > 0 && table.matched > 0,
        notice is Parsing <==> table.error is None && !(table.columns.len() > 0 && table.matched
            > 0) && running,
        notice is Prompt ==> text::trim(pattern).len() == 0,
        notice is NoMatches ==> text::trim(pattern).len() > 0,
{
}

} // verus!
