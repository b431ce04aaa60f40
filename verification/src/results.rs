//! Matches over all files, as a tree of files and lines.

use crate::i18n;
use crate::i18n::{Key, Language};
use crate::text;
use std::collections::HashSet;
use std::sync::Arc;
use vstd::prelude::*;

verus! {

/// What is known of the matches in a tab: those of the search and those of the filters, as far
/// as they were looked for, and what is still going on.
pub struct TabMatches {
    pub path: u64,
    pub full_path: String,
    pub search: Option<Arc<Vec<u64>>>,
    pub filter: Option<Arc<Vec<u64>>>,
    pub search_scanning: bool,
    pub filter_scanning: bool,
    pub indexing: bool,
}

/// What the matches come from.
#[derive(Clone, Copy, Debug, PartialEq, Eq, Structural)]
pub enum ResultKind {
    Search,
    Filters,
    Nothing,
}

/// A search comes before the filters.
pub open spec fn kind_of(has_search: bool, has_filter_results: bool) -> ResultKind {
    if has_search {
        ResultKind::Search
    } else if has_filter_results {
        ResultKind::Filters
    } else {
        ResultKind::Nothing
    }
}

/// What the matches come from.
pub fn result_kind(has_search: bool, has_filter_results: bool) -> (r: ResultKind)
    ensures
        r == kind_of(has_search, has_filter_results),
{
    if has_search {
        ResultKind::Search
    } else if has_filter_results {
        ResultKind::Filters
    } else {
        ResultKind::Nothing
    }
}

/// The matches of a tab that count.
pub open spec fn tab_lines(tab: TabMatches, kind: ResultKind) -> Seq<u64> {
    match kind {
        ResultKind::Search => match tab.search {
            Some(lines) => lines@,
            None => Seq::empty(),
        },
        ResultKind::Filters => match tab.filter {
            Some(lines) => lines@,
            None => Seq::empty(),
        },
        ResultKind::Nothing => Seq::empty(),
    }
}

/// Matches of a tab are still being looked for.
pub open spec fn tab_pending(tab: TabMatches, kind: ResultKind) -> bool {
    match kind {
        ResultKind::Search => tab.search_scanning || tab.indexing,
        ResultKind::Filters => tab.filter_scanning || tab.indexing,
        ResultKind::Nothing => false,
    }
}

/// A file with matches in the tree.
pub struct ResultFile {
    pub tab_index: usize,
    pub path: u64,
    pub full_path: String,
    pub lines: Arc<Vec<u64>>,
    pub start: usize,
    pub expanded: bool,
}

/// The matches over all files: the files that have any, and how many matches, rows and tabs
/// that are not done there are.
pub struct SearchTree {
    pub files: Vec<ResultFile>,
    pub total_matches: usize,
    pub tree_rows: usize,
    pub scanning: usize,
}

/// A sum that stays within the numbers of the machine.
pub open spec fn capped(sum: int) -> int {
    if sum <= usize::MAX {
        sum
    } else {
        usize::MAX as int
    }
}

/// The rows of a file with so many matches: one for itself, and those of its matches unless it
/// is collapsed.
pub open spec fn file_rows(matches: nat, expanded: bool) -> int {
    capped(
        1 + if expanded {
            matches as int
        } else {
            0
        },
    )
}

/// The rows of a file in the tree.
pub fn search_tree_file_row_count(matches: usize, expanded: bool) -> (r: usize)
    ensures
        r == file_rows(matches as nat, expanded),
{
    let more: usize = if expanded {
        matches
    } else {
        0
    };
    if more == usize::MAX {
        usize::MAX
    } else {
        1 + more
    }
}

/// The number of matches in the first `count` tabs.
pub open spec fn matches_in(tabs: Seq<TabMatches>, kind: ResultKind, count: nat) -> int
    decreases count,
{
    if count == 0 {
        0
    } else {
        capped(
            matches_in(tabs, kind, (count - 1) as nat) + tab_lines(tabs[count - 1], kind).len(),
        )
    }
}

/// The rows of the first `count` tabs.
pub open spec fn rows_in(
    tabs: Seq<TabMatches>,
    kind: ResultKind,
    collapsed: Set<u64>,
    count: nat,
) -> int
    decreases count,
{
    if count == 0 {
        0
    } else {
        let before = rows_in(tabs, kind, collapsed, (count - 1) as nat);
        let lines = tab_lines(tabs[count - 1], kind);
        if lines.len() == 0 {
            before
        } else {
            capped(before + file_rows(lines.len(), !collapsed.contains(tabs[count - 1].path)))
        }
    }
}

/// The number of those among the first `count` tabs that are not done.
pub open spec fn pending_in(tabs: Seq<TabMatches>, kind: ResultKind, count: nat) -> nat
    decreases count,
{
    if count == 0 {
        0
    } else {
        pending_in(tabs, kind, (count - 1) as nat) + if tab_pending(tabs[count - 1], kind) {
            1nat
        } else {
            0
        }
    }
}

/// A file in the tree, by what it holds.
#[verifier::ext_equal]
pub struct FileView {
    pub tab_index: nat,
    pub path: u64,
    pub full_path: Seq<char>,
    pub lines: Seq<u64>,
    pub start: int,
    pub expanded: bool,
}

/// A file in the tree, by what it holds.
pub open spec fn file_view(file: ResultFile) -> FileView {
    FileView {
        tab_index: file.tab_index as nat,
        path: file.path,
        full_path: file.full_path@,
        lines: file.lines@,
        start: file.start as int,
        expanded: file.expanded,
    }
}

/// Files in the tree, by what they hold.
pub open spec fn file_views(files: Seq<ResultFile>) -> Seq<FileView> {
    files.map_values(|file: ResultFile| file_view(file))
}

/// The files with matches among the first `count` tabs.
pub open spec fn files_in(
    tabs: Seq<TabMatches>,
    kind: ResultKind,
    collapsed: Set<u64>,
    count: nat,
) -> Seq<FileView>
    decreases count,
{
    if count == 0 {
        Seq::empty()
    } else {
        let before = files_in(tabs, kind, collapsed, (count - 1) as nat);
        let tab = tabs[count - 1];
        let lines = tab_lines(tab, kind);
        if lines.len() == 0 {
            before
        } else {
            before.push(
                FileView {
                    tab_index: (count - 1) as nat,
                    path: tab.path,
                    full_path: tab.full_path@,
                    lines,
                    start: rows_in(tabs, kind, collapsed, (count - 1) as nat),
                    expanded: !collapsed.contains(tab.path),
                },
            )
        }
    }
}

/// Puts together the matches of all tabs. `collapsed` are the files of which only the heading
/// is shown.
pub fn build_results(tabs: &Vec<TabMatches>, collapsed: &HashSet<u64>, kind: ResultKind) -> (r:
    SearchTree)
    ensures
        file_views(r.files@) == files_in(tabs@, kind, collapsed@, tabs@.len()),
        r.total_matches == matches_in(tabs@, kind, tabs@.len()),
        r.tree_rows == rows_in(tabs@, kind, collapsed@, tabs@.len()),
        r.scanning == pending_in(tabs@, kind, tabs@.len()),
{
    let mut files: Vec<ResultFile> = Vec::new();
    let mut total_matches: usize = 0;
    let mut tree_rows: usize = 0;
    let mut scanning: usize = 0;
    let mut i: usize = 0;
    assert(file_views(files@) =~= files_in(tabs@, kind, collapsed@, 0));
    while i < tabs.len()
        invariant
            i <= tabs@.len(),
            scanning <= i,
            file_views(files@) == files_in(tabs@, kind, collapsed@, i as nat),
            total_matches == matches_in(tabs@, kind, i as nat),
            tree_rows == rows_in(tabs@, kind, collapsed@, i as nat),
            scanning == pending_in(tabs@, kind, i as nat),
        decreases tabs@.len() - i,
    {
        let tab = &tabs[i];
        let pending = match kind {
            ResultKind::Search => tab.search_scanning || tab.indexing,
            ResultKind::Filters => tab.filter_scanning || tab.indexing,
            ResultKind::Nothing => false,
        };
        if pending {
            scanning += 1;
        }
        let lines = match kind {
            ResultKind::Search => &tab.search,
            ResultKind::Filters => &tab.filter,
            ResultKind::Nothing => &None,
        };
        if let Some(lines) = lines {
            if lines.len() > 0 {
                let expanded = !collapsed.contains(&tab.path);
                let start = tree_rows;
                tree_rows = tree_rows.saturating_add(
                    search_tree_file_row_count(lines.len(), expanded),
                );
                total_matches = total_matches.saturating_add(lines.len());
                let ghost before = files@;
                files.push(
                    ResultFile {
                        tab_index: i,
                        path: tab.path,
                        full_path: tab.full_path.clone(),
                        lines: lines.clone(),
                        start,
                        expanded,
                    },
                );
                assert(file_views(files@) =~= file_views(before).push(file_view(files@.last())));
            }
        }
        i += 1;
    }
    SearchTree { files, total_matches, tree_rows, scanning }
}

/// A row of the tree.
#[derive(Clone, Copy, Debug, PartialEq, Eq, Structural)]
pub enum TreeRow {
    /// The heading of a file.
    File { file: usize },
    /// A match: the file and the line.
    Line { file: usize, line: u64 },
}

/// The rows of a file one after another.
pub open spec fn rows_of_file(file: FileView, index: nat) -> Seq<TreeRow> {
    seq![TreeRow::File { file: index as usize }] + if file.expanded {
        file.lines.map_values(|line: u64| TreeRow::Line { file: index as usize, line })
    } else {
        Seq::empty()
    }
}

/// The rows of the first `count` files one after another.
pub open spec fn all_rows(files: Seq<FileView>, count: nat) -> Seq<TreeRow>
    decreases count,
{
    if count == 0 {
        Seq::empty()
    } else {
        all_rows(files, (count - 1) as nat) + rows_of_file(files[count - 1], (count - 1) as nat)
    }
}

/// A file starts where the rows of those before it end.
pub open spec fn starts_in_place(files: Seq<FileView>, i: int) -> bool {
    files[i].start == all_rows(files, i as nat).len()
}

/// Each file starts where the rows of those before it end, and there are no more rows than the
/// machine can count.
pub open spec fn starts_fit(files: Seq<FileView>) -> bool {
    &&& forall|i: int| 0 <= i < files.len() ==> #[trigger] starts_in_place(files, i)
    &&& all_rows(files, files.len()).len() <= usize::MAX
    &&& files.len() <= usize::MAX
}

proof fn lemma_all_rows_grow(files: Seq<FileView>, a: nat, b: nat)
    requires
        a <= b <= files.len(),
    ensures
        all_rows(files, a).len() <= all_rows(files, b).len(),
        all_rows(files, b).take(all_rows(files, a).len() as int) == all_rows(files, a),
    decreases b,
{
    if a < b {
        lemma_all_rows_grow(files, a, (b - 1) as nat);
        let before = all_rows(files, (b - 1) as nat);
        assert(all_rows(files, b).take(all_rows(files, a).len() as int) =~= before.take(
            all_rows(files, a).len() as int,
        ));
    } else {
        assert(all_rows(files, b).take(all_rows(files, a).len() as int) =~= all_rows(files, a));
    }
}

proof fn lemma_rows_of_file(files: Seq<FileView>, at: nat, k: int)
    requires
        at < files.len(),
        0 <= k < rows_of_file(files[at as int], at).len(),
    ensures
        all_rows(files, at).len() + k < all_rows(files, files.len()).len(),
        all_rows(files, files.len())[all_rows(files, at).len() + k] == rows_of_file(
            files[at as int],
            at,
        )[k],
{
    let rows = all_rows(files, files.len());
    let part = all_rows(files, at + 1);
    lemma_all_rows_grow(files, at + 1, files.len());
    assert(part == all_rows(files, at) + rows_of_file(files[at as int], at));
    let place = all_rows(files, at).len() + k;
    assert(rows.take(part.len() as int)[place] == rows[place]);
}

/// The number of files that start at a row or before it.
fn files_up_to(files: &Vec<ResultFile>, index: usize) -> (r: usize)
    requires
        starts_fit(file_views(files@)),
    ensures
        r <= files@.len(),
        forall|k: int| 0 <= k < r ==> (#[trigger] file_views(files@)[k]).start <= index,
        forall|k: int| r <= k < files@.len() ==> (#[trigger] file_views(files@)[k]).start > index,
{
    let ghost views = file_views(files@);
    let mut low: usize = 0;
    let mut high: usize = files.len();
    while low < high
        invariant
            low <= high <= files@.len(),
            views == file_views(files@),
            starts_fit(views),
            forall|k: int| 0 <= k < low ==> (#[trigger] views[k]).start <= index,
            forall|k: int| high <= k < views.len() ==> (#[trigger] views[k]).start > index,
        decreases high - low,
    {
        let middle: usize = low + (high - low) / 2;
        assert(views[middle as int].start == files@[middle as int].start);
        if files[middle].start <= index {
            proof {
                assert forall|k: int| 0 <= k < middle + 1 implies (#[trigger] views[k]).start
                    <= index by {
                    assert(starts_in_place(views, k));
                    assert(starts_in_place(views, middle as int));
                    lemma_all_rows_grow(views, k as nat, middle as nat);
                }
            }
            low = middle + 1;
        } else {
            proof {
                assert forall|k: int| middle <= k < views.len() implies (
                #[trigger] views[k]).start > index by {
                    assert(starts_in_place(views, k));
                    assert(starts_in_place(views, middle as int));
                    lemma_all_rows_grow(views, middle as nat, k as nat);
                }
            }
            high = middle;
        }
    }
    low
}

/// The row at a place of the tree.
pub fn tree_row(files: &Vec<ResultFile>, index: usize) -> (r: Option<TreeRow>)
    requires
        starts_fit(file_views(files@)),
    ensures
        r == if index < all_rows(file_views(files@), files@.len()).len() {
            Some(all_rows(file_views(files@), files@.len())[index as int])
        } else {
            None
        },
{
    let ghost views = file_views(files@);
    let upto = files_up_to(files, index);
    if upto == 0 {
        assert(views.len() == 0) by {
            if views.len() > 0 {
                assert(starts_in_place(views, 0));
            }
        }
        return None;
    }
    let at: usize = upto - 1;
    let file = &files[at];
    let ghost own = rows_of_file(views[at as int], at as nat);
    assert(views[at as int] == file_view(*file));
    assert(starts_in_place(views, at as int));
    assert(file.start == all_rows(views, at as nat).len());
    assert(views[at as int].start <= index);
    if index == file.start {
        proof {
            lemma_rows_of_file(views, at as nat, 0);
        }
        return Some(TreeRow::File { file: at });
    }
    let line_index: usize = index - file.start - 1;
    if file.expanded && line_index < file.lines.len() {
        let line = file.lines[line_index];
        proof {
            assert(own.len() == file.lines@.len() + 1);
            lemma_rows_of_file(views, at as nat, line_index + 1);
            assert(own[line_index + 1] == (TreeRow::Line { file: at, line }));
        }
        return Some(TreeRow::Line { file: at, line });
    }
    proof {
        assert(own.len() <= index - file.start);
        assert(all_rows(views, upto as nat).len() == file.start + own.len());
        if upto < views.len() {
            assert(views[upto as int].start > index);
            assert(starts_in_place(views, upto as int));
        }
    }
    None
}

/// The rows that the tree of some tabs has are numbered without a gap, as long as the machine
/// can count them.
pub proof fn built_trees_number_their_rows(
    tabs: Seq<TabMatches>,
    kind: ResultKind,
    collapsed: Set<u64>,
    count: nat,
)
    requires
        count <= tabs.len() <= usize::MAX,
        rows_in(tabs, kind, collapsed, count) < usize::MAX,
    ensures
        starts_fit(files_in(tabs, kind, collapsed, count)),
        all_rows(
            files_in(tabs, kind, collapsed, count),
            files_in(tabs, kind, collapsed, count).len(),
        ).len() == rows_in(tabs, kind, collapsed, count),
        files_in(tabs, kind, collapsed, count).len() <= count,
    decreases count,
{
    let files = files_in(tabs, kind, collapsed, count);
    if count > 0 {
        let rest = (count - 1) as nat;
        built_trees_number_their_rows(tabs, kind, collapsed, rest);
        let before = files_in(tabs, kind, collapsed, rest);
        let lines = tab_lines(tabs[count - 1], kind);
        if lines.len() > 0 {
            assert forall|i: int| 0 <= i < files.len() implies #[trigger] starts_in_place(
                files,
                i,
            ) by {
                lemma_all_rows_by_prefix(files, before, i as nat);
                if i < before.len() {
                    assert(files[i] == before[i]);
                    assert(starts_in_place(before, i));
                }
            }
            lemma_all_rows_by_prefix(files, before, before.len());
            assert(files[before.len() as int] == files.last());
        }
    }
}

proof fn lemma_all_rows_by_prefix(a: Seq<FileView>, b: Seq<FileView>, count: nat)
    requires
        count <= a.len(),
        count <= b.len(),
        forall|k: int| 0 <= k < count ==> a[k] == b[k],
    ensures
        all_rows(a, count) == all_rows(b, count),
    decreases count,
{
    if count > 0 {
        lemma_all_rows_by_prefix(a, b, (count - 1) as nat);
    }
}

/// What the heading of a file says of its matches.
pub open spec fn match_count_words(count: nat, lang: Language) -> Seq<char> {
    match lang {
        Language::ZhCn => "（匹配 "@ + text::grouped(text::decimal(count)) + " 次）"@,
        Language::EnUs => "("@ + text::grouped(text::decimal(count)) + " matches)"@,
    }
}

/// What the heading of a file says of its matches.
pub fn search_file_match_count(count: usize, lang: Language) -> (r: String)
    ensures
        r@ == match_count_words(count as nat, lang),
{
    let number = text::group(count as u64);
    match lang {
        Language::ZhCn => text::concat3("（匹配 ", &number, " 次）"),
        Language::EnUs => text::concat3("(", &number, " matches)"),
    }
}

/// The label of a line.
pub open spec fn line_words(line: nat, lang: Language) -> Seq<char> {
    match lang {
        Language::ZhCn => "行 "@ + text::grouped(text::decimal(line)) + ":"@,
        Language::EnUs => "Ln "@ + text::grouped(text::decimal(line)) + ":"@,
    }
}

/// The label of a line.
pub fn search_line_label(line: u64, lang: Language) -> (r: String)
    ensures
        r@ == line_words(line as nat, lang),
{
    let number = text::group(line);
    match lang {
        Language::ZhCn => text::concat3("行 ", &number, ":"),
        Language::EnUs => text::concat3("Ln ", &number, ":"),
    }
}

/// The number of those among the first `count` tabs that have matches.
pub open spec fn files_matched(tabs: Seq<TabMatches>, kind: ResultKind, count: nat) -> nat
    decreases count,
{
    if count == 0 {
        0
    } else {
        files_matched(tabs, kind, (count - 1) as nat) + if tab_lines(tabs[count - 1], kind).len()
            > 0 {
            1nat
        } else {
            0
        }
    }
}

/// What the title of the results says: how many matches, and in how many files. `files_word` is
/// the word for files.
pub fn search_results_title_summary(
    tabs: &Vec<TabMatches>,
    kind: ResultKind,
    lang: Language,
    files_word: &str,
) -> (r: String)
    ensures
        r@ == text::grouped(text::decimal(matches_in(tabs@, kind, tabs@.len()) as nat)) + " "@
            + i18n::translation(Key::Matches, lang)@ + "  |  "@ + text::grouped(
            text::decimal(files_matched(tabs@, kind, tabs@.len())),
        ) + " "@ + files_word@,
{
    let mut total: usize = 0;
    let mut files: usize = 0;
    let mut i: usize = 0;
    while i < tabs.len()
        invariant
            i <= tabs@.len(),
            files <= i,
            total == matches_in(tabs@, kind, i as nat),
            files == files_matched(tabs@, kind, i as nat),
        decreases tabs@.len() - i,
    {
        let tab = &tabs[i];
        let lines = match kind {
            ResultKind::Search => &tab.search,
            ResultKind::Filters => &tab.filter,
            ResultKind::Nothing => &None,
        };
        if let Some(lines) = lines {
            if lines.len() > 0 {
                total = total.saturating_add(lines.len());
                files += 1;
            }
        }
        i += 1;
    }
    let mut out = text::chars_of(&text::group(total as u64));
    text::append_text(&mut out, " ");
    text::append_text(&mut out, i18n::text(Key::Matches, lang));
    text::append_text(&mut out, "  |  ");
    text::append_text(&mut out, &text::group(files as u64));
    text::append_text(&mut out, " ");
    text::append_text(&mut out, files_word);
    text::text_of(&out)
}

/// What stands in place of the tree where there is none.
#[derive(Clone, Copy, Debug, PartialEq, Eq, Structural)]
pub enum ResultsNotice {
    /// There is nothing to look for.
    Prompt,
    /// Matches are still being looked for.
    InProgress,
    /// There are no matches.
    NoResults,
    /// There is a tree.
    Tree,
}

/// What stands in place of the tree where there is none.
pub fn results_notice(kind: ResultKind, total_matches: usize, scanning: usize) -> (r: ResultsNotice)
    ensures
        r == if kind == ResultKind::Nothing {
            ResultsNotice::Prompt
        } else if total_matches > 0 {
            ResultsNotice::Tree
        } else if scanning > 0 {
            ResultsNotice::InProgress
        } else {
            ResultsNotice::NoResults
        },
{
    if kind == ResultKind::Nothing {
        ResultsNotice::Prompt
    } else if total_matches > 0 {
        ResultsNotice::Tree
    } else if scanning > 0 {
        ResultsNotice::InProgress
    } else {
        ResultsNotice::NoResults
    }
}

/// The panel that shows the matches.
pub struct SearchResultsPanel {
    pub collapsed_files: HashSet<u64>,
    pub selected_line: Option<(u64, u64)>,
    pub visible: bool,
}

impl SearchResultsPanel {
    /// A panel that is shown, with every file expanded.
    pub fn new() -> (r: SearchResultsPanel)
        ensures
            r.collapsed_files@ == Set::<u64>::empty(),
            r.selected_line is None,
            r.visible,
    {
        SearchResultsPanel { collapsed_files: HashSet::new(), selected_line: None, visible: true }
    }

    /// Whether the panel is shown.
    pub fn visible(&self) -> (r: bool)
        ensures
            r == self.visible,
    {
        self.visible
    }

    /// Shows or hides the panel. Says whether that is new.
    pub fn set_visible(&mut self, visible: bool) -> (changed: bool)
        ensures
            changed == (old(self).visible != visible),
            *final(self) == (SearchResultsPanel { visible, ..*old(self) }),
    {
        let changed = self.visible != visible;
        self.visible = visible;
        changed
    }

    /// Forgets what is collapsed and selected.
    pub fn reset_scroll(&mut self)
        ensures
            final(self).collapsed_files@ == Set::<u64>::empty(),
            final(self).selected_line is None,
            final(self).visible == old(self).visible,
    {
        self.collapsed_files.clear();
        self.selected_line = None;
    }

    /// Selects a match.
    pub fn select_line(&mut self, path: u64, file_line: u64)
        ensures
            *final(self) == (SearchResultsPanel {
                selected_line: Some((path, file_line)),
                ..*old(self)
            }),
    {
        self.selected_line = Some((path, file_line));
    }

    /// Collapses or expands a file.
    pub fn toggle_file(&mut self, path: u64)
        ensures
            final(self).collapsed_files@ == if old(self).collapsed_files@.contains(path) {
                old(self).collapsed_files@.remove(path)
            } else {
                old(self).collapsed_files@.insert(path)
            },
            final(self).selected_line == old(self).selected_line,
            final(self).visible == old(self).visible,
    {
        if !self.collapsed_files.remove(&path) {
            self.collapsed_files.insert(path);
        }
    }

    /// The match to copy when a key is pressed: the selected one, on the primary modifier and
    /// the key `c`.
    pub fn on_key(&self, focused: bool, primary: bool, key: &str) -> (r: Option<(u64, u64)>)
        ensures
            r == if focused && primary && key@ == "c"@ {
                self.selected_line
            } else {
                None
            },
    {
        if focused && primary && text::same_text(key, "c") {
            self.selected_line
        } else {
            None
        }
    }
}

/// The files of the tree are the tabs that have matches of the kind that is shown, in the order of
/// the tabs, each with all of its matches. A file is expanded unless it is collapsed.
pub proof fn every_tab_with_matches_is_in_the_tree(
    tabs: Seq<TabMatches>,
    kind: ResultKind,
    collapsed: Set<u64>,
    count: nat,
)
    requires
        count <= tabs.len(),
    ensures
        ({
            let files = files_in(tabs, kind, collapsed, count);
            let found = |i: int|
                match kind {
                    ResultKind::Search => tabs[i].search,
                    ResultKind::Filters => tabs[i].filter,
                    ResultKind::Nothing => None,
                };
            &&& forall|k: int|
                0 <= k < files.len() ==> {
                    let file = #[trigger] files[k];
                    let tab = tabs[file.tab_index as int];
                    &&& file.tab_index < count
                    &&& file.path == tab.path
                    &&& file.full_path == tab.full_path@
                    &&& found(file.tab_index as int) matches Some(lines)
                    &&& file.lines == lines@
                    &&& file.lines.len() > 0
                    &&& file.expanded == !collapsed.contains(tab.path)
                }
            &&& forall|a: int, b: int|
                0 <= a < b < files.len() ==> (#[trigger] files[a]).tab_index < (
                #[trigger] files[b]).tab_index
            &&& forall|i: int|
                #![trigger tabs[i]]
                0 <= i < count ==> (found(i) matches Some(lines) ==> (lines@.len() > 0 ==> exists|
                    k: int,
                |
                    0 <= k < files.len() && (#[trigger] files[k]).tab_index == i))
        }),
    decreases count,
{
    if count > 0 {
        let rest = (count - 1) as nat;
        every_tab_with_matches_is_in_the_tree(tabs, kind, collapsed, rest);
        let before = files_in(tabs, kind, collapsed, rest);
        let files = files_in(tabs, kind, collapsed, count);
        let found = |i: int|
            match kind {
                ResultKind::Search => tabs[i].search,
                ResultKind::Filters => tabs[i].filter,
                ResultKind::Nothing => None,
            };
        assert forall|k: int| 0 <= k < before.len() implies #[trigger] files[k] == before[k] by {}
        assert forall|i: int|
            #![trigger tabs[i]]
            0 <= i < count implies (found(i) matches Some(lines) ==> (lines@.len() > 0 ==> exists|
            k: int,
        |
            0 <= k < files.len() && (#[trigger] files[k]).tab_index == i)) by {
            if let Some(lines) = found(i) {
                if lines@.len() > 0 {
                    if i < rest {
                        let k = choose|k: int|
                            0 <= k < before.len() && (#[trigger] before[k]).tab_index == i;
                        assert(files[k].tab_index == i);
                    } else {
                        assert(files[before.len() as int].tab_index == i);
                    }
                }
            }
        }
    }
}

proof fn lemma_row_place(files: Seq<FileView>, f: int, offset: int, count: nat)
    requires
        0 <= f < count <= files.len(),
        0 <= offset < rows_of_file(files[f], f as nat).len(),
    ensures
        all_rows(files, f as nat).len() + offset < all_rows(files, count).len(),
        all_rows(files, count)[all_rows(files, f as nat).len() + offset] == rows_of_file(
            files[f],
            f as nat,
        )[offset],
    decreases count,
{
    if f < count - 1 {
        lemma_row_place(files, f, offset, (count - 1) as nat);
    }
}

/// In a tree whose files stand in place, the heading of each file is followed by its matches, in
/// their order, unless it is collapsed, and then by the next file.
pub proof fn matches_follow_the_heading_of_their_file(files: Seq<FileView>, f: int, i: int)
    requires
        starts_fit(files),
        0 <= f < files.len(),
    ensures
        ({
            let rows = all_rows(files, files.len());
            let start = files[f].start;
            let size = if files[f].expanded {
                1 + files[f].lines.len()
            } else {
                1
            };
            &&& 0 <= start && start + size <= rows.len()
            &&& rows[start] == (TreeRow::File { file: f as usize })
            &&& files[f].expanded && 0 <= i < files[f].lines.len() ==> rows[start + 1 + i] == (
            TreeRow::Line { file: f as usize, line: files[f].lines[i] })
            &&& f + 1 < files.len() ==> files[f + 1].start == start + size
            &&& f + 1 == files.len() ==> rows.len() == start + size
            &&& f == 0 ==> start == 0
        }),
{
    let own = rows_of_file(files[f], f as nat);
    assert(starts_in_place(files, f));
    lemma_row_place(files, f, 0, files.len());
    lemma_row_place(files, f, own.len() - 1, files.len());
    if files[f].expanded && 0 <= i < files[f].lines.len() {
        lemma_row_place(files, f, 1 + i, files.len());
    }
    assert(all_rows(files, (f + 1) as nat) == all_rows(files, f as nat) + own);
    if f + 1 < files.len() {
        assert(starts_in_place(files, f + 1));
    }
}

/// The numbers of matches and of rows are sums over the tabs, as long as the machine can count
/// them: a tab adds its matches, and where it has any, a row for itself and, unless it is
/// collapsed, one for each match.
pub proof fn tabs_add_their_matches_and_rows(
    tabs: Seq<TabMatches>,
    kind: ResultKind,
    collapsed: Set<u64>,
    i: nat,
)
    requires
        i < tabs.len(),
    ensures
        ({
            let size = match kind {
                ResultKind::Search => match tabs[i as int].search {
                    Some(lines) => lines@.len(),
                    None => 0,
                },
                ResultKind::Filters => match tabs[i as int].filter {
                    Some(lines) => lines@.len(),
                    None => 0,
                },
                ResultKind::Nothing => 0,
            };
            &&& matches_in(tabs, kind, 0) == 0
            &&& rows_in(tabs, kind, collapsed, 0) == 0
            &&& matches_in(tabs, kind, i + 1) < usize::MAX ==> matches_in(tabs, kind, i + 1)
                == matches_in(tabs, kind, i) + size
            &&& rows_in(tabs, kind, collapsed, i + 1) < usize::MAX ==> rows_in(
                tabs,
                kind,
                collapsed,
                i + 1,
            ) == rows_in(tabs, kind, collapsed, i) + if size == 0 {
                0
            } else if collapsed.contains(tabs[i as int].path) {
                1
            } else {
                1 + size as int
            }
        }),
{
    lemma_rows_are_counted(tabs, kind, collapsed, i);
}

proof fn lemma_rows_are_counted(
    tabs: Seq<TabMatches>,
    kind: ResultKind,
    collapsed: Set<u64>,
    count: nat,
)
    ensures
        rows_in(tabs, kind, collapsed, count) >= 0,
    decreases count,
{
    if count > 0 {
        lemma_rows_are_counted(tabs, kind, collapsed, (count - 1) as nat);
    }
}

/// The tabs that are not done are those that are being searched, or filtered, or indexed; those
/// that have matches are counted each once.
pub proof fn tabs_are_counted(tabs: Seq<TabMatches>, kind: ResultKind, count: nat)
    requires
        count <= tabs.len(),
    ensures
        pending_in(tabs, kind, count) == tabs.take(count as int).filter(
            |tab: TabMatches|
                match kind {
                    ResultKind::Search => tab.search_scanning || tab.indexing,
                    ResultKind::Filters => tab.filter_scanning || tab.indexing,
                    ResultKind::Nothing => false,
                },
        ).len(),
        files_matched(tabs, kind, count) == tabs.take(count as int).filter(
            |tab: TabMatches|
                match kind {
                    ResultKind::Search => tab.search matches Some(lines) && lines@.len() > 0,
                    ResultKind::Filters => tab.filter matches Some(lines) && lines@.len() > 0,
                    ResultKind::Nothing => false,
                },
        ).len(),
    decreases count,
{
    reveal(Seq::filter);
    if count > 0 {
        tabs_are_counted(tabs, kind, (count - 1) as nat);
        assert(tabs.take(count as int).drop_last() =~= tabs.take(count - 1));
        assert(tabs.take(count as int).last() == tabs[count - 1]);
    }
}

/// As long as there is a search, its matches are shown; those of the filters only without one.
pub proof fn a_search_comes_before_the_filters(has_filter_results: bool)
    ensures
        kind_of(true, has_filter_results) == ResultKind::Search,
        kind_of(false, has_filter_results) == (if has_filter_results {
            ResultKind::Filters
        } else {
            ResultKind::Nothing
        }),
{
}

/// A search and the filters each show their own matches of a tab and none of the other's, and
/// both wait for a tab that is still being indexed.
pub proof fn kinds_show_their_own_matches(tab: TabMatches)
    ensures
        tab.search matches Some(lines) ==> tab_lines(tab, ResultKind::Search) == lines@,
        tab.search is None ==> tab_lines(tab, ResultKind::Search).len() == 0,
        tab.filter matches Some(lines) ==> tab_lines(tab, ResultKind::Filters) == lines@,
        tab.filter is None ==> tab_lines(tab, ResultKind::Filters).len() == 0,
        tab_lines(tab, ResultKind::Nothing).len() == 0,
        tab.indexing ==> tab_pending(tab, ResultKind::Search) && tab_pending(
            tab,
            ResultKind::Filters,
        ),
        !tab.indexing ==> tab_pending(tab, ResultKind::Search) == tab.search_scanning
            && tab_pending(tab, ResultKind::Filters) == tab.filter_scanning,
        !tab_pending(tab, ResultKind::Nothing),
{
}

/// A folded file takes one row, an open one a row more for each match.
pub proof fn open_files_show_their_matches(file: FileView, index: nat, i: int)
    requires
        index <= usize::MAX,
    ensures
        ({
            let rows = rows_of_file(file, index);
            &&& rows.len() == 1 + if file.expanded {
                file.lines.len()
            } else {
                0
            }
            &&& rows[0] == TreeRow::File { file: index as usize }
            &&& file.expanded && 0 <= i < file.lines.len() ==> rows[i + 1] == TreeRow::Line {
                file: index as usize,
                line: file.lines[i],
            }
        }),
{
}

} // verus!
