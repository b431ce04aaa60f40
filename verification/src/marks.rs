//! Marked lines and the panel that lists them.

use crate::text;
use std::collections::BTreeSet;
use vstd::prelude::*;

verus! {

/// A line of a file: the number that stands for the path, and the line.
pub type LineKey = (u64, u64);

/// A marked line.
pub struct MarkedLogLine {
    pub path: u64,
    pub title: String,
    pub file_line: u64,
    pub text: String,
}

/// The marked lines of a tab, with their texts as far as these can be read.
pub struct TabMarks {
    pub path: u64,
    pub title: String,
    pub lines: Vec<(u64, Option<String>)>,
}

/// A marked line by its texts.
#[verifier::ext_equal]
pub struct MarkView {
    pub path: u64,
    pub title: Seq<char>,
    pub file_line: u64,
    pub text: Seq<char>,
}

/// Marked lines by their texts.
pub open spec fn mark_views(marks: Seq<MarkedLogLine>) -> Seq<MarkView> {
    marks.map_values(
        |mark: MarkedLogLine|
            MarkView {
                path: mark.path,
                title: mark.title@,
                file_line: mark.file_line,
                text: mark.text@,
            },
    )
}

/// The first `count` marks of a tab.
pub open spec fn marks_of_tab(tab: TabMarks, count: nat) -> Seq<MarkView>
    decreases count,
{
    if count == 0 {
        Seq::empty()
    } else {
        let (line, shown) = tab.lines@[count - 1];
        marks_of_tab(tab, (count - 1) as nat).push(
            MarkView {
                path: tab.path,
                title: tab.title@,
                file_line: line,
                text: match shown {
                    Some(shown) => shown@,
                    None => Seq::empty(),
                },
            },
        )
    }
}

/// The marks of the first `count` tabs, one tab after another.
pub open spec fn marks_of_tabs(tabs: Seq<TabMarks>, count: nat) -> Seq<MarkView>
    decreases count,
{
    if count == 0 {
        Seq::empty()
    } else {
        let tab = tabs[count - 1];
        marks_of_tabs(tabs, (count - 1) as nat) + marks_of_tab(tab, tab.lines@.len())
    }
}

/// All marked lines, one tab after another.
pub fn marked_lines(tabs: &Vec<TabMarks>) -> (r: Vec<MarkedLogLine>)
    ensures
        mark_views(r@) == marks_of_tabs(tabs@, tabs@.len()),
{
    let mut out: Vec<MarkedLogLine> = Vec::new();
    let mut i: usize = 0;
    assert(mark_views(out@) =~= marks_of_tabs(tabs@, 0));
    while i < tabs.len()
        invariant
            i <= tabs@.len(),
            mark_views(out@) == marks_of_tabs(tabs@, i as nat),
        decreases tabs@.len() - i,
    {
        let tab = &tabs[i];
        let ghost before = mark_views(out@);
        let mut j: usize = 0;
        assert(before + marks_of_tab(*tab, 0) =~= before);
        while j < tab.lines.len()
            invariant
                j <= tab.lines@.len(),
                mark_views(out@) == before + marks_of_tab(*tab, j as nat),
            decreases tab.lines@.len() - j,
        {
            let shown = match &tab.lines[j].1 {
                Some(shown) => shown.clone(),
                None => String::new(),
            };
            let ghost known = out@;
            out.push(
                MarkedLogLine {
                    path: tab.path,
                    title: tab.title.clone(),
                    file_line: tab.lines[j].0,
                    text: shown,
                },
            );
            j += 1;
            proof {
                let view = marks_of_tab(*tab, j as nat).last();
                assert(mark_views(out@).last() =~~= view);
                assert(mark_views(out@) =~= mark_views(known).push(view));
                assert(before + marks_of_tab(*tab, j as nat) =~= (before + marks_of_tab(
                    *tab,
                    (j - 1) as nat,
                )).push(view));
            }
        }
        i += 1;
    }
    out
}

/// Whether a key is in a list.
fn has_key(keys: &Vec<LineKey>, key: LineKey) -> (r: bool)
    ensures
        r == keys@.contains(key),
{
    let mut i: usize = 0;
    while i < keys.len()
        invariant
            i <= keys@.len(),
            forall|k: int| 0 <= k < i ==> keys@[k] != key,
        decreases keys@.len() - i,
    {
        if keys[i].0 == key.0 && keys[i].1 == key.1 {
            assert(keys@[i as int] == key);
            return true;
        }
        i += 1;
    }
    false
}

/// The texts of those marks whose lines are in a list.
pub open spec fn texts_of_lines(marks: Seq<MarkedLogLine>, lines: Seq<LineKey>) -> Seq<Seq<char>>
    decreases marks.len(),
{
    if marks.len() == 0 {
        Seq::empty()
    } else {
        let before = texts_of_lines(marks.drop_last(), lines);
        let mark = marks.last();
        if lines.contains((mark.path, mark.file_line)) {
            before.push(mark.text@)
        } else {
            before
        }
    }
}

/// What is copied of the marked lines: the texts of those in a list, one line each, in the order
/// of the marks. Nothing is copied where that is empty.
pub fn copy_marked_lines(marks: &Vec<MarkedLogLine>, lines: &Vec<LineKey>) -> (r: Option<String>)
    ensures
        match r {
            Some(copied) => copied@ == text::join(texts_of_lines(marks@, lines@), "\n"@)
                && copied@.len() > 0,
            None => text::join(texts_of_lines(marks@, lines@), "\n"@).len() == 0,
        },
{
    let mut parts: Vec<Vec<char>> = Vec::new();
    let mut i: usize = 0;
    assert(text::pieces(parts@) =~= texts_of_lines(marks@.take(0), lines@));
    while i < marks.len()
        invariant
            i <= marks@.len(),
            text::pieces(parts@) == texts_of_lines(marks@.take(i as int), lines@),
        decreases marks@.len() - i,
    {
        assert(marks@.take(i + 1).drop_last() =~= marks@.take(i as int));
        if has_key(lines, (marks[i].path, marks[i].file_line)) {
            let shown = text::chars_of(&marks[i].text);
            let ghost before = parts@;
            parts.push(shown);
            assert(text::pieces(parts@) =~= text::pieces(before).push(shown@));
        }
        i += 1;
    }
    assert(marks@.take(i as int) =~= marks@);
    let copied = text::joined(&parts, "\n");
    if copied.len() > 0 {
        Some(text::text_of(&copied))
    } else {
        None
    }
}

/// The texts that are there.
pub open spec fn present(shown: Seq<Option<String>>) -> Seq<Seq<char>>
    decreases shown.len(),
{
    if shown.len() == 0 {
        Seq::empty()
    } else {
        match shown.last() {
            Some(line) => present(shown.drop_last()).push(line@),
            None => present(shown.drop_last()),
        }
    }
}

/// What is copied of some lines: the texts that can be read, one line each. Nothing is copied
/// where that is empty.
pub fn copy_log_lines(shown: &Vec<Option<String>>) -> (r: Option<String>)
    ensures
        match r {
            Some(copied) => copied@ == text::join(present(shown@), "\n"@) && copied@.len() > 0,
            None => text::join(present(shown@), "\n"@).len() == 0,
        },
{
    let mut parts: Vec<Vec<char>> = Vec::new();
    let mut i: usize = 0;
    assert(text::pieces(parts@) =~= present(shown@.take(0)));
    while i < shown.len()
        invariant
            i <= shown@.len(),
            text::pieces(parts@) == present(shown@.take(i as int)),
        decreases shown@.len() - i,
    {
        assert(shown@.take(i + 1).drop_last() =~= shown@.take(i as int));
        if let Some(line) = &shown[i] {
            let line = text::chars_of(line);
            let ghost before = parts@;
            parts.push(line);
            assert(text::pieces(parts@) =~= text::pieces(before).push(line@));
        }
        i += 1;
    }
    assert(shown@.take(i as int) =~= shown@);
    let copied = text::joined(&parts, "\n");
    if copied.len() > 0 {
        Some(text::text_of(&copied))
    } else {
        None
    }
}

/// The lines of one file among some.
pub open spec fn lines_in_file(lines: Seq<LineKey>, path: u64) -> Seq<u64>
    decreases lines.len(),
{
    if lines.len() == 0 {
        Seq::empty()
    } else if lines.last().0 == path {
        lines_in_file(lines.drop_last(), path).push(lines.last().1)
    } else {
        lines_in_file(lines.drop_last(), path)
    }
}

/// The lines of one file that are no longer marked.
pub fn unmark_lines(lines: &Vec<LineKey>, path: u64) -> (r: Vec<u64>)
    ensures
        r@ == lines_in_file(lines@, path),
{
    let mut out: Vec<u64> = Vec::new();
    let mut i: usize = 0;
    while i < lines.len()
        invariant
            i <= lines@.len(),
            out@ == lines_in_file(lines@.take(i as int), path),
        decreases lines@.len() - i,
    {
        assert(lines@.take(i + 1).drop_last() =~= lines@.take(i as int));
        if lines[i].0 == path {
            out.push(lines[i].1);
        }
        i += 1;
    }
    assert(lines@.take(i as int) =~= lines@);
    out
}

/// The panel that lists the marked lines.
pub struct MarkPanel {
    pub visible: bool,
    pub selected: BTreeSet<LineKey>,
    pub selection_anchor: Option<LineKey>,
    pub current_line: Option<LineKey>,
}

/// What a key does in the panel.
#[derive(Clone, Copy, Debug, PartialEq, Eq, Structural)]
pub enum MarkKey {
    SelectAll,
    Copy,
    Nothing,
}

/// The place of a key among some, or else another place.
pub open spec fn place_or(keys: Seq<LineKey>, key: LineKey, otherwise: int) -> int {
    if keys.contains(key) {
        keys.index_of_first(key).unwrap()
    } else {
        otherwise
    }
}

/// The keys from one place to another, both included, whichever comes first.
pub open spec fn between(keys: Seq<LineKey>, a: int, b: int) -> Set<LineKey> {
    if a <= b {
        keys.subrange(a, b + 1).to_set()
    } else {
        keys.subrange(b, a + 1).to_set()
    }
}

/// Where a file stands among the files in the order of their paths.
pub open spec fn path_rank(order: Seq<u64>, path: u64) -> int {
    if order.contains(path) {
        order.index_of_first(path).unwrap()
    } else {
        order.len() as int
    }
}

/// One line comes before another: by path, and within a file by number. Files that are not
/// listed come last, by the numbers that stand for them.
pub open spec fn line_before(order: Seq<u64>, a: LineKey, b: LineKey) -> bool {
    let x = path_rank(order, a.0);
    let y = path_rank(order, b.0);
    x < y || (x == y && (a.0 < b.0 || (a.0 == b.0 && a.1 < b.1)))
}

/// The lines stand in order, each once.
pub open spec fn in_line_order(order: Seq<u64>, lines: Seq<LineKey>) -> bool {
    forall|i: int, j: int|
        0 <= i < j < lines.len() ==> line_before(order, #[trigger] lines[i], #[trigger] lines[j])
}

impl MarkPanel {
    /// A panel that is shown, with nothing selected.
    pub fn new() -> (r: MarkPanel)
        ensures
            r.visible,
            r.selected@ == Set::<LineKey>::empty(),
            r.selection_anchor is None,
            r.current_line is None,
    {
        MarkPanel {
            visible: true,
            selected: BTreeSet::new(),
            selection_anchor: None,
            current_line: None,
        }
    }

    /// Whether the panel is shown.
    pub fn visible(&self) -> (r: bool)
        ensures
            r == self.visible,
    {
        self.visible
    }

    /// Shows or hides the panel. Says whether that is new.
    pub fn set_visible(&mut self, visible: bool) -> (changed: bool)
        ensures
            changed == (old(self).visible != visible),
            *final(self) == (MarkPanel { visible, ..*old(self) }),
    {
        let changed = self.visible != visible;
        self.visible = visible;
        changed
    }

    /// Whether a line is selected.
    pub fn is_selected(&self, key: LineKey) -> (r: bool)
        ensures
            r == self.selected@.contains(key),
    {
        self.selected.contains(&key)
    }

    /// Selects a line of the list, which stands at `index` of `keys`. Alone it replaces the
    /// selection; `additive` puts it to the selection or takes it out; `extend` selects all
    /// lines from where the selection began.
    pub fn select(
        &mut self,
        key: LineKey,
        index: usize,
        keys: &Vec<LineKey>,
        additive: bool,
        extend: bool,
    )
        requires
            index < keys@.len(),
        ensures
            final(self).visible == old(self).visible,
            final(self).current_line == Some(key),
            final(self).selection_anchor == (if extend {
                old(self).selection_anchor
            } else {
                Some(key)
            }),
            final(self).selected@ == selected_after(
                old(self).selected@,
                old(self).selection_anchor,
                key,
                index as int,
                keys@,
                additive,
                extend,
            ),
    {
        self.current_line = Some(key);
        let ghost was = self.selected@;
        if extend {
            let anchor = match self.selection_anchor {
                Some(anchor) => anchor,
                None => key,
            };
            let mut anchor_index: usize = index;
            let mut i: usize = 0;
            let mut found = false;
            while i < keys.len() && !found
                invariant
                    i <= keys@.len(),
                    index < keys@.len(),
                    !found ==> anchor_index == index && forall|k: int|
                        0 <= k < i ==> keys@[k] != anchor,
                    found ==> anchor_index < keys@.len() && keys@[anchor_index as int] == anchor
                        && forall|k: int| 0 <= k < anchor_index ==> keys@[k] != anchor,
                decreases keys@.len() - i + if found {
                    0int
                } else {
                    1
                },
            {
                if keys[i].0 == anchor.0 && keys[i].1 == anchor.1 {
                    assert(keys@[i as int] == anchor);
                    anchor_index = i;
                    found = true;
                } else {
                    i += 1;
                }
            }
            proof {
                lemma_place_or(keys@, anchor, index as int, anchor_index as int, found);
            }
            if !additive {
                self.selected.clear();
            }
            let ghost base = self.selected@;
            let (from, to) = if anchor_index <= index {
                (anchor_index, index)
            } else {
                (index, anchor_index)
            };
            let count: usize = keys.len();
            let mut j: usize = from;
            assert(keys@.subrange(from as int, from as int).to_set() =~= Set::<LineKey>::empty());
            assert(base.union(keys@.subrange(from as int, j as int).to_set()) =~= base);
            while j <= to
                invariant
                    from <= j <= to + 1,
                    to < count,
                    count == keys@.len(),
                    self.selected@ == base.union(
                        keys@.subrange(from as int, j as int).to_set(),
                    ),
                    self.visible == old(self).visible,
                    self.selection_anchor == old(self).selection_anchor,
                    self.current_line == Some(key),
                decreases to + 1 - j,
            {
                self.selected.insert(keys[j]);
                proof {
                    let part = keys@.subrange(from as int, j as int);
                    let next = keys@.subrange(from as int, j + 1);
                    assert(next =~= part.push(keys@[j as int]));
                    lemma_push_set(part, keys@[j as int]);
                    assert(base.union(part.to_set()).insert(keys@[j as int]) =~= base.union(
                        next.to_set(),
                    ));
                }
                j += 1;
            }
        } else if additive {
            if !self.selected.insert(key) {
                self.selected.remove(&key);
                assert(self.selected@ =~= was.remove(key));
            }
            self.selection_anchor = Some(key);
        } else {
            self.selected.clear();
            self.selected.insert(key);
            self.selection_anchor = Some(key);
        }
    }

    /// Selects all lines of the list. The current line stays, if it is one of them.
    pub fn select_all(&mut self, keys: &Vec<LineKey>)
        ensures
            final(self).visible == old(self).visible,
            final(self).selected@ == keys@.to_set(),
            final(self).selection_anchor == (if keys@.len() > 0 {
                Some(keys@[0])
            } else {
                None
            }),
            final(self).current_line == (if old(self).current_line is Some && keys@.contains(
                old(self).current_line.unwrap(),
            ) {
                old(self).current_line
            } else if keys@.len() > 0 {
                Some(keys@[0])
            } else {
                None
            }),
    {
        self.selected.clear();
        let mut i: usize = 0;
        assert(self.selected@ =~= keys@.take(0).to_set());
        while i < keys.len()
            invariant
                i <= keys@.len(),
                self.visible == old(self).visible,
                self.current_line == old(self).current_line,
                self.selected@ == keys@.take(i as int).to_set(),
            decreases keys@.len() - i,
        {
            self.selected.insert(keys[i]);
            proof {
                lemma_push_set(keys@.take(i as int), keys@[i as int]);
                assert(keys@.take(i + 1) =~= keys@.take(i as int).push(keys@[i as int]));
            }
            i += 1;
        }
        assert(keys@.take(i as int) =~= keys@);
        let first = if keys.len() > 0 {
            Some(keys[0])
        } else {
            None
        };
        self.selection_anchor = first;
        let stays = match self.current_line {
            Some(current) => {
                assert(self.selected@.contains(current) == keys@.to_set().contains(current));
                self.selected.contains(&current)
            },
            None => false,
        };
        if !stays {
            self.current_line = first;
        }
    }

    /// The selected lines by path and number; `order` are the files in the order of their paths.
    pub fn selected_lines(&self, order: &Vec<u64>) -> (r: Vec<LineKey>)
        ensures
            r@.to_set() == self.selected@,
            in_line_order(order@, r@),
    {
        let mut out: Vec<LineKey> = Vec::new();
        let ghost all = vstd::std_specs::iter::IteratorSpec::remaining(
            &self.selected.iter(),
        ).unref();
        assert(out@.to_set() =~= all.take(0).to_set());
        for key in it: self.selected.iter()
            invariant
                it.seq().unref() == all,
                all.no_duplicates(),
                in_line_order(order@, out@),
                out@.to_set() == all.take(it.index() as int).to_set(),
        {
            let ghost at = it.index() as int;
            let ghost before = all.take(at);
            proof {
                assert(*key == all[at]);
                if out@.contains(*key) {
                    assert(out@.to_set().contains(*key));
                    assert(before.to_set().contains(*key));
                    let k = choose|k: int| 0 <= k < before.len() && before[k] == *key;
                    assert(all[k] == all[at]);
                }
                lemma_push_set(before, *key);
                assert(all.take(at + 1) =~= before.push(*key));
            }
            insert_line(&mut out, *key, order);
        }
        assert(all.take(all.len() as int) =~= all);
        out
    }

    /// The lines that the menu on a line works on: the selection, or only that line if it is
    /// not selected, and then that is selected. They come by path and number.
    pub fn selected_lines_for_context(&mut self, key: LineKey, order: &Vec<u64>) -> (r: Vec<LineKey>)
        ensures
            final(self).visible == old(self).visible,
            final(self).current_line == Some(key),
            old(self).selected@.contains(key) ==> final(self).selected@ == old(self).selected@
                && final(self).selection_anchor == old(self).selection_anchor,
            !old(self).selected@.contains(key) ==> final(self).selected@ == set![key] && final(
                self).selection_anchor == Some(key),
            r@.to_set() == final(self).selected@,
            in_line_order(order@, r@),
    {
        self.current_line = Some(key);
        if !self.selected.contains(&key) {
            self.selected.clear();
            self.selected.insert(key);
            self.selection_anchor = Some(key);
        }
        self.selected_lines(order)
    }

    /// Takes lines that are no longer marked out of the selection. If the current line is one
    /// of them, the first line that is still selected takes its place; `order` are the files in
    /// the order of their paths.
    pub fn prune_selection(&mut self, removed: &Vec<LineKey>, order: &Vec<u64>)
        ensures
            final(self).visible == old(self).visible,
            final(self).selected@ == old(self).selected@.difference(removed@.to_set()),
            final(self).selection_anchor == (if old(self).selection_anchor is Some
                && removed@.contains(old(self).selection_anchor.unwrap()) {
                None
            } else {
                old(self).selection_anchor
            }),
            old(self).current_line is None || !removed@.contains(old(self).current_line.unwrap())
                ==> final(self).current_line == old(self).current_line,
            old(self).current_line is Some && removed@.contains(old(self).current_line.unwrap())
                ==> match final(self).current_line {
                Some(current) => final(self).selected@.contains(current) && forall|other: LineKey|
                    final(self).selected@.contains(other) ==> !#[trigger] line_before(
                        order@,
                        other,
                        current,
                    ),
                None => final(self).selected@ == Set::<LineKey>::empty(),
            },
    {
        let mut i: usize = 0;
        assert(removed@.take(0).to_set() =~= Set::<LineKey>::empty());
        assert(self.selected@.difference(removed@.take(0).to_set()) =~= self.selected@);
        while i < removed.len()
            invariant
                i <= removed@.len(),
                self.selected@ == old(self).selected@.difference(removed@.take(i as int).to_set()),
                *self == (MarkPanel { selected: self.selected, ..*old(self) }),
            decreases removed@.len() - i,
        {
            self.selected.remove(&removed[i]);
            proof {
                lemma_push_set(removed@.take(i as int), removed@[i as int]);
                assert(removed@.take(i + 1) =~= removed@.take(i as int).push(removed@[i as int]));
                assert(self.selected@ =~= old(self).selected@.difference(
                    removed@.take(i + 1).to_set(),
                ));
            }
            i += 1;
        }
        assert(removed@.take(i as int) =~= removed@);
        if let Some(anchor) = self.selection_anchor {
            if has_key(removed, anchor) {
                self.selection_anchor = None;
            }
        }
        if let Some(current) = self.current_line {
            if has_key(removed, current) {
                self.current_line = self.first_selected(order);
            }
        }
    }

    /// The first selected line.
    fn first_selected(&self, order: &Vec<u64>) -> (r: Option<LineKey>)
        ensures
            match r {
                Some(current) => self.selected@.contains(current) && forall|other: LineKey|
                    self.selected@.contains(other) ==> !#[trigger] line_before(
                        order@,
                        other,
                        current,
                    ),
                None => self.selected@ == Set::<LineKey>::empty(),
            },
    {
        let lines = self.selected_lines(order);
        if lines.len() == 0 {
            assert(lines@.to_set() =~= Set::<LineKey>::empty());
            return None;
        }
        let first = lines[0];
        proof {
            assert(lines@.contains(first)) by {
                assert(lines@[0] == first);
            }
            assert forall|other: LineKey| self.selected@.contains(
                other,
            ) implies !#[trigger] line_before(order@, other, first) by {
                assert(lines@.to_set().contains(other));
                let k = choose|k: int| 0 <= k < lines@.len() && lines@[k] == other;
                if k > 0 {
                    assert(line_before(order@, lines@[0], lines@[k]));
                }
            }
        }
        Some(first)
    }

    /// What a key does in the panel.
    pub fn on_key(&self, focused: bool, primary: bool, key: &str) -> (r: MarkKey)
        ensures
            r == if !focused || !primary {
                MarkKey::Nothing
            } else if key@ == "a"@ {
                MarkKey::SelectAll
            } else if key@ == "c"@ && self.selected@ != Set::<LineKey>::empty() {
                MarkKey::Copy
            } else {
                MarkKey::Nothing
            },
    {
        proof {
            reveal_strlit("a");
            reveal_strlit("c");
            if self.selected@.is_empty() {
                assert(self.selected@ =~= Set::<LineKey>::empty());
            }
        }
        if !focused || !primary {
            MarkKey::Nothing
        } else if text::same_text(key, "a") {
            MarkKey::SelectAll
        } else if text::same_text(key, "c") && !self.selected.is_empty() {
            MarkKey::Copy
        } else {
            MarkKey::Nothing
        }
    }

    /// The title of the panel: with the title of the current line's file, if that is marked.
    pub fn title(&self, base: &str, marks: &Vec<MarkedLogLine>) -> (r: String)
        ensures
            r@ == match self.current_line {
                Some(current) => match title_of(marks@, current) {
                    Some(title) => base@ + " - "@ + title,
                    None => base@,
                },
                None => base@,
            },
    {
        if let Some(current) = self.current_line {
            let mut i: usize = 0;
            assert(marks@.skip(0) =~= marks@);
            while i < marks.len()
                invariant
                    i <= marks@.len(),
                    self.current_line == Some(current),
                    title_of(marks@.skip(i as int), current) == title_of(marks@, current),
                decreases marks@.len() - i,
            {
                assert(marks@.skip(i as int)[0] == marks@[i as int]);
                assert(marks@.skip(i as int).skip(1) =~= marks@.skip(i + 1));
                if marks[i].path == current.0 && marks[i].file_line == current.1 {
                    return text::concat3(base, " - ", &marks[i].title);
                }
                i += 1;
            }
        }
        base.to_owned()
    }
}

/// The title of the file of the first mark on a line.
pub open spec fn title_of(marks: Seq<MarkedLogLine>, key: LineKey) -> Option<Seq<char>>
    decreases marks.len(),
{
    if marks.len() == 0 {
        None
    } else if marks[0].path == key.0 && marks[0].file_line == key.1 {
        Some(marks[0].title@)
    } else {
        title_of(marks.skip(1), key)
    }
}

/// The selection after a line of the list was clicked.
pub open spec fn selected_after(
    selected: Set<LineKey>,
    anchor: Option<LineKey>,
    key: LineKey,
    index: int,
    keys: Seq<LineKey>,
    additive: bool,
    extend: bool,
) -> Set<LineKey> {
    if extend {
        let from = place_or(
            keys,
            match anchor {
                Some(anchor) => anchor,
                None => key,
            },
            index,
        );
        let base = if additive {
            selected
        } else {
            Set::empty()
        };
        base.union(between(keys, from, index))
    } else if additive {
        if selected.contains(key) {
            selected.remove(key)
        } else {
            selected.insert(key)
        }
    } else {
        Set::empty().insert(key)
    }
}

/// Clicking a line twice with the modifier that adds leaves the selection as it was.
pub proof fn adding_twice_changes_nothing(
    selected: Set<LineKey>,
    anchor: Option<LineKey>,
    other: Option<LineKey>,
    key: LineKey,
    index: int,
    keys: Seq<LineKey>,
)
    ensures
        selected_after(
            selected_after(selected, anchor, key, index, keys, true, false),
            other,
            key,
            index,
            keys,
            true,
            false,
        ) == selected,
{
    assert(selected.insert(key).remove(key) =~= selected || selected.contains(key));
    assert(selected.remove(key).insert(key) =~= selected || !selected.contains(key));
}

proof fn lemma_push_set(s: Seq<LineKey>, key: LineKey)
    ensures
        s.push(key).to_set() == s.to_set().insert(key),
{
    let after = s.push(key);
    assert forall|other: LineKey| #[trigger]
        after.to_set().contains(other) <==> s.to_set().insert(key).contains(other) by {
        if s.contains(other) {
            let k = choose|k: int| 0 <= k < s.len() && s[k] == other;
            assert(after[k] == other);
        }
        if other == key {
            assert(after[s.len() as int] == key);
        }
        if after.contains(other) && other != key {
            let k = choose|k: int| 0 <= k < after.len() && after[k] == other;
            assert(s[k] == other);
        }
    }
    assert(after.to_set() =~= s.to_set().insert(key));
}

proof fn lemma_place_or(
    keys: Seq<LineKey>,
    key: LineKey,
    otherwise: int,
    place: int,
    found: bool,
)
    requires
        found ==> 0 <= place < keys.len() && keys[place] == key && forall|k: int|
            0 <= k < place ==> keys[k] != key,
        !found ==> place == otherwise && forall|k: int| 0 <= k < keys.len() ==> keys[k] != key,
    ensures
        place_or(keys, key, otherwise) == place,
{
    if found {
        assert(keys.contains(key));
        keys.index_of_first_ensures(key);
        let first = keys.index_of_first(key).unwrap();
        if first < place {
            assert(keys[first] != key);
        }
    } else {
        assert(!keys.contains(key));
    }
}

proof fn lemma_line_order_is_unique(order: Seq<u64>, a: Seq<LineKey>, b: Seq<LineKey>)
    requires
        in_line_order(order, a),
        in_line_order(order, b),
        forall|key: LineKey| #[trigger] a.contains(key) <==> #[trigger] b.contains(key),
    ensures
        a == b,
    decreases a.len(),
{
    if a.len() == 0 {
        if b.len() > 0 {
            assert(b.contains(b[0]));
            assert(a.contains(b[0]));
        }
        assert(a =~= b);
    } else {
        assert(a.contains(a[a.len() - 1]));
        assert(b.contains(a[a.len() - 1]));
        let y = choose|k: int| 0 <= k < b.len() && b[k] == a[a.len() - 1];
        assert(b.contains(b[b.len() - 1]));
        assert(a.contains(b[b.len() - 1]));
        let x = choose|k: int| 0 <= k < a.len() && a[k] == b[b.len() - 1];
        if y < b.len() - 1 {
            assert(line_before(order, b[y], b[b.len() - 1]));
            if x < a.len() - 1 {
                assert(line_before(order, a[x], a[a.len() - 1]));
            }
        }
        assert(a.last() == b.last());
        let a0 = a.drop_last();
        let b0 = b.drop_last();
        assert forall|key: LineKey| #[trigger] a0.contains(key) <==> #[trigger] b0.contains(key) by {
            if a0.contains(key) {
                let k = choose|k: int| 0 <= k < a0.len() && a0[k] == key;
                assert(line_before(order, a[k], a[a.len() - 1]));
                assert(a[k] == key);
                assert(a.contains(key));
                assert(b.contains(key));
                let m = choose|m: int| 0 <= m < b.len() && b[m] == key;
                assert(b0[m] == key);
            }
            if b0.contains(key) {
                let k = choose|k: int| 0 <= k < b0.len() && b0[k] == key;
                assert(line_before(order, b[k], b[b.len() - 1]));
                assert(b[k] == key);
                assert(b.contains(key));
                assert(a.contains(key));
                let m = choose|m: int| 0 <= m < a.len() && a[m] == key;
                assert(a0[m] == key);
            }
        }
        assert forall|i: int, j: int| 0 <= i < j < a0.len() implies line_before(
            order,
            #[trigger] a0[i],
            #[trigger] a0[j],
        ) by {
            assert(line_before(order, a[i], a[j]));
        }
        assert forall|i: int, j: int| 0 <= i < j < b0.len() implies line_before(
            order,
            #[trigger] b0[i],
            #[trigger] b0[j],
        ) by {
            assert(line_before(order, b[i], b[j]));
        }
        lemma_line_order_is_unique(order, a0, b0);
        assert(a =~= a0.push(a.last()));
        assert(b =~= b0.push(b.last()));
    }
}

/// There is only one way to put lines in order.
pub proof fn line_order_is_unique(order: Seq<u64>, a: Seq<LineKey>, b: Seq<LineKey>)
    requires
        in_line_order(order, a),
        in_line_order(order, b),
        a.to_set() == b.to_set(),
    ensures
        a == b,
{
    assert forall|key: LineKey| #[trigger] a.contains(key) <==> #[trigger] b.contains(key) by {
        assert(a.to_set().contains(key) == a.contains(key));
        assert(b.to_set().contains(key) == b.contains(key));
    }
    lemma_line_order_is_unique(order, a, b);
}

/// Whether one line comes before another.
fn comes_before(order: &Vec<u64>, a: LineKey, b: LineKey) -> (r: bool)
    ensures
        r == line_before(order@, a, b),
{
    let x = rank_of(order, a.0);
    let y = rank_of(order, b.0);
    x < y || (x == y && (a.0 < b.0 || (a.0 == b.0 && a.1 < b.1)))
}

/// Puts a line in its place among lines that stand in order.
fn insert_line(lines: &mut Vec<LineKey>, key: LineKey, order: &Vec<u64>)
    requires
        in_line_order(order@, old(lines)@),
        !old(lines)@.contains(key),
    ensures
        in_line_order(order@, final(lines)@),
        final(lines)@.to_set() == old(lines)@.to_set().insert(key),
{
    let ghost before = lines@;
    let mut i: usize = 0;
    while i < lines.len() && comes_before(order, lines[i], key)
        invariant
            i <= lines@.len(),
            lines@ == before,
            forall|k: int| 0 <= k < i ==> line_before(order@, #[trigger] before[k], key),
        decreases lines@.len() - i,
    {
        i += 1;
    }
    assert(i < before.len() ==> line_before(order@, key, before[i as int])) by {
        if i < before.len() {
            assert(before.contains(before[i as int]));
        }
    }
    lines.insert(i, key);
    proof {
        let after = lines@;
        assert(after =~= before.insert(i as int, key));
        assert forall|a: int, b: int| 0 <= a < b < after.len() implies line_before(
            order@,
            #[trigger] after[a],
            #[trigger] after[b],
        ) by {
            if a < i && b > i {
                assert(line_before(order@, before[a], before[b - 1]));
            } else if a < i && b < i {
                assert(line_before(order@, before[a], before[b]));
            } else if a > i {
                assert(line_before(order@, before[a - 1], before[b - 1]));
            } else if a == i && b > i + 1 {
                assert(line_before(order@, before[i as int], before[b - 1]));
            }
        }
        assert forall|other: LineKey| #[trigger]
            after.to_set().contains(other) <==> before.to_set().insert(key).contains(other) by {
            if before.contains(other) {
                let k = choose|k: int| 0 <= k < before.len() && before[k] == other;
                if k < i {
                    assert(after[k] == other);
                } else {
                    assert(after[k + 1] == other);
                }
            }
            if other == key {
                assert(after[i as int] == other);
            }
            if after.contains(other) {
                let k = choose|k: int| 0 <= k < after.len() && after[k] == other;
                if k < i {
                    assert(before[k] == other);
                } else if k > i {
                    assert(before[k - 1] == other);
                }
            }
        }
        assert(after.to_set() =~= before.to_set().insert(key));
    }
}

/// Where a file stands among the files in the order of their paths.
fn rank_of(order: &Vec<u64>, path: u64) -> (r: usize)
    ensures
        r == path_rank(order@, path),
{
    let mut i: usize = 0;
    while i < order.len()
        invariant
            i <= order@.len(),
            forall|k: int| 0 <= k < i ==> order@[k] != path,
        decreases order@.len() - i,
    {
        if order[i] == path {
            proof {
                assert(order@.contains(path)) by {
                    assert(order@[i as int] == path);
                }
                order@.index_of_first_ensures(path);
                let first = order@.index_of_first(path).unwrap();
                if first < i {
                    assert(order@[first] != path);
                }
            }
            return i;
        }
        i += 1;
    }
    assert(!order@.contains(path));
    order.len()
}

/// The marks are listed tab by tab, and within a tab line by line, each with the title of the tab
/// and the text of its line, as far as that can be read.
pub proof fn marks_are_listed_tab_by_tab(tabs: Seq<TabMarks>, more: Seq<TabMarks>, tab: TabMarks)
    ensures
        marks_of_tabs(tabs + more, (tabs + more).len()) == marks_of_tabs(tabs, tabs.len())
            + marks_of_tabs(more, more.len()),
        marks_of_tabs(seq![tab], 1) == tab.lines@.map_values(
            |line: (u64, Option<String>)|
                MarkView {
                    path: tab.path,
                    title: tab.title@,
                    file_line: line.0,
                    text: match line.1 {
                        Some(shown) => shown@,
                        None => Seq::empty(),
                    },
                },
        ),
        marks_of_tabs(Seq::<TabMarks>::empty(), 0).len() == 0,
{
    lemma_marks_follow(tabs, more, more.len());
    lemma_marks_of_tab(tab, tab.lines@.len());
    assert(marks_of_tabs(seq![tab], 0) =~= Seq::empty());
    assert(marks_of_tabs(seq![tab], 1) =~= tab.lines@.map_values(
        |line: (u64, Option<String>)|
            MarkView {
                path: tab.path,
                title: tab.title@,
                file_line: line.0,
                text: match line.1 {
                    Some(shown) => shown@,
                    None => Seq::empty(),
                },
            },
    ));
}

proof fn lemma_marks_of_tab(tab: TabMarks, count: nat)
    requires
        count <= tab.lines@.len(),
    ensures
        marks_of_tab(tab, count).len() == count,
        forall|i: int|
            0 <= i < count ==> #[trigger] marks_of_tab(tab, count)[i] == (MarkView {
                path: tab.path,
                title: tab.title@,
                file_line: tab.lines@[i].0,
                text: match tab.lines@[i].1 {
                    Some(shown) => shown@,
                    None => Seq::empty(),
                },
            }),
    decreases count,
{
    if count > 0 {
        lemma_marks_of_tab(tab, (count - 1) as nat);
        assert forall|i: int| 0 <= i < count implies #[trigger] marks_of_tab(tab, count)[i] == (
        MarkView {
            path: tab.path,
            title: tab.title@,
            file_line: tab.lines@[i].0,
            text: match tab.lines@[i].1 {
                Some(shown) => shown@,
                None => Seq::empty(),
            },
        }) by {
            if i < count - 1 {
                assert(marks_of_tab(tab, count)[i] == marks_of_tab(tab, (count - 1) as nat)[i]);
            }
        }
    }
}

proof fn lemma_marks_follow(tabs: Seq<TabMarks>, more: Seq<TabMarks>, count: nat)
    requires
        count <= more.len(),
    ensures
        marks_of_tabs(tabs + more, tabs.len() + count) == marks_of_tabs(tabs, tabs.len())
            + marks_of_tabs(more, count),
    decreases count,
{
    let all = tabs + more;
    if count == 0 {
        lemma_marks_keep(all, tabs, tabs.len());
    } else {
        lemma_marks_follow(tabs, more, (count - 1) as nat);
        assert(all[tabs.len() + count - 1] == more[count - 1]);
    }
    assert(marks_of_tabs(all, tabs.len() + count) =~= marks_of_tabs(tabs, tabs.len())
        + marks_of_tabs(more, count));
}

proof fn lemma_marks_keep(a: Seq<TabMarks>, b: Seq<TabMarks>, count: nat)
    requires
        count <= a.len(),
        count <= b.len(),
        forall|k: int| 0 <= k < count ==> a[k] == b[k],
    ensures
        marks_of_tabs(a, count) == marks_of_tabs(b, count),
    decreases count,
{
    if count > 0 {
        lemma_marks_keep(a, b, (count - 1) as nat);
    }
}

/// Copying marks takes the texts of those whose lines are asked for, in the order of the marks.
pub proof fn marks_asked_for_are_copied(marks: Seq<MarkedLogLine>, lines: Seq<LineKey>)
    ensures
        texts_of_lines(marks, lines) == marks.filter(
            |mark: MarkedLogLine| lines.contains((mark.path, mark.file_line)),
        ).map_values(|mark: MarkedLogLine| mark.text@),
    decreases marks.len(),
{
    reveal(Seq::filter);
    let wanted = |mark: MarkedLogLine| lines.contains((mark.path, mark.file_line));
    let shown = |mark: MarkedLogLine| mark.text@;
    if marks.len() > 0 {
        let before = marks.drop_last();
        marks_asked_for_are_copied(before, lines);
        assert(before.filter(wanted).push(marks.last()).map_values(shown) =~= before.filter(
            wanted,
        ).map_values(shown).push(marks.last().text@));
    }
    assert(texts_of_lines(marks, lines) =~= marks.filter(wanted).map_values(shown));
}

/// Copying lines takes the texts that can be read, in their order.
pub proof fn lines_that_can_be_read_are_copied(shown: Seq<Option<String>>)
    ensures
        present(shown) == shown.filter_map(
            |line: Option<String>|
                match line {
                    Some(line) => Some(line@),
                    None => None,
                },
        ),
    decreases shown.len(),
{
    if shown.len() > 0 {
        lines_that_can_be_read_are_copied(shown.drop_last());
    }
    assert(present(shown) =~= shown.filter_map(
        |line: Option<String>|
            match line {
                Some(line) => Some(line@),
                None => None,
            },
    ));
}

/// The lines of a file are those that carry its number, in their order.
pub proof fn lines_are_sorted_out_by_file(lines: Seq<LineKey>, path: u64)
    ensures
        lines_in_file(lines, path) == lines.filter(|line: LineKey| line.0 == path).map_values(
            |line: LineKey| line.1,
        ),
    decreases lines.len(),
{
    reveal(Seq::filter);
    let wanted = |line: LineKey| line.0 == path;
    let number = |line: LineKey| line.1;
    if lines.len() > 0 {
        let before = lines.drop_last();
        lines_are_sorted_out_by_file(before, path);
        assert(before.filter(wanted).push(lines.last()).map_values(number) =~= before.filter(
            wanted,
        ).map_values(number).push(lines.last().1));
    }
    assert(lines_in_file(lines, path) =~= lines.filter(wanted).map_values(number));
}

/// A click selects the line alone. With the extending modifier it selects all lines of the list
/// from where the selection began to the line, both included, whichever comes first; lines that
/// were selected before stay so only with the adding modifier.
pub proof fn clicks_select_lines(
    selected: Set<LineKey>,
    start: int,
    index: int,
    keys: Seq<LineKey>,
    additive: bool,
    other: LineKey,
)
    requires
        0 <= index < keys.len(),
        0 <= start < keys.len(),
        keys.no_duplicates(),
    ensures
        selected_after(selected, Some(keys[start]), keys[index], index, keys, false, false)
            == Set::<LineKey>::empty().insert(keys[index]),
        selected_after(
            selected,
            Some(keys[start]),
            keys[index],
            index,
            keys,
            additive,
            true,
        ).contains(other) <==> (additive && selected.contains(other)) || exists|k: int|
            (start <= k <= index || index <= k <= start) && #[trigger] keys[k] == other,
        selected_after(selected, None, keys[index], index, keys, false, true) == Set::<
            LineKey,
        >::empty().insert(keys[index]),
{
    assert(keys.contains(keys[start]));
    keys.index_of_first_ensures(keys[start]);
    assert(keys.index_of_first(keys[start]).unwrap() == start);
    assert(keys.contains(keys[index]));
    keys.index_of_first_ensures(keys[index]);
    assert(keys.index_of_first(keys[index]).unwrap() == index);
    let (a, b) = if start <= index {
        (start, index)
    } else {
        (index, start)
    };
    let part = keys.subrange(a, b + 1);
    assert(part.to_set().contains(other) <==> exists|k: int|
        a <= k <= b && #[trigger] keys[k] == other) by {
        if part.contains(other) {
            let i = choose|i: int| 0 <= i < part.len() && part[i] == other;
            assert(keys[a + i] == other);
        }
        if exists|k: int| a <= k <= b && #[trigger] keys[k] == other {
            let k = choose|k: int| a <= k <= b && #[trigger] keys[k] == other;
            assert(part[k - a] == other);
        }
    }
    let one = keys.subrange(index, index + 1);
    assert(one =~= seq![keys[index]]);
    assert(one.to_set() =~= Set::<LineKey>::empty().insert(keys[index])) by {
        lemma_push_set(Seq::<LineKey>::empty(), keys[index]);
        assert(Seq::<LineKey>::empty().push(keys[index]) =~= one);
        assert(Seq::<LineKey>::empty().to_set() =~= Set::<LineKey>::empty());
    }
    assert(selected_after(selected, None, keys[index], index, keys, false, true) =~= Set::<
        LineKey,
    >::empty().insert(keys[index]));
}

/// Lines stand in the order of their files, and within a file in the order of their numbers.
pub proof fn files_decide_before_line_numbers(order: Seq<u64>, i: int, j: int, a: u64, b: u64)
    requires
        0 <= i < order.len(),
        0 <= j < order.len(),
        order.no_duplicates(),
    ensures
        line_before(order, (order[i], a), (order[j], b)) <==> i < j || (i == j && a < b),
{
    assert(order.contains(order[i]));
    assert(order.contains(order[j]));
    order.index_of_first_ensures(order[i]);
    order.index_of_first_ensures(order[j]);
    assert(order.index_of_first(order[i]).unwrap() == i);
    assert(order.index_of_first(order[j]).unwrap() == j);
}

/// The title of a line is that of the first mark on it.
pub proof fn the_first_mark_gives_the_title(marks: Seq<MarkedLogLine>, key: LineKey, i: int)
    requires
        0 <= i <= marks.len(),
        forall|k: int|
            0 <= k < i ==> !((#[trigger] marks[k]).path == key.0 && marks[k].file_line == key.1),
        i < marks.len() ==> marks[i].path == key.0 && marks[i].file_line == key.1,
    ensures
        i < marks.len() ==> title_of(marks, key) == Some(marks[i].title@),
        i == marks.len() ==> title_of(marks, key) is None,
    decreases marks.len(),
{
    if i > 0 {
        let rest = marks.skip(1);
        assert(!(marks[0].path == key.0 && marks[0].file_line == key.1));
        assert forall|k: int| 0 <= k < i - 1 implies !((#[trigger] rest[k]).path == key.0
            && rest[k].file_line == key.1) by {
            assert(rest[k] == marks[k + 1]);
        }
        the_first_mark_gives_the_title(rest, key, i - 1);
    }
}

/// The lines between two places are those at the places and all that stand in between, whichever
/// of the two comes first.
pub proof fn both_ends_are_between(keys: Seq<LineKey>, a: int, b: int, key: LineKey)
    requires
        0 <= a < keys.len(),
        0 <= b < keys.len(),
    ensures
        between(keys, a, b) == between(keys, b, a),
        between(keys, a, b).contains(key) <==> exists|i: int|
            (a <= i <= b || b <= i <= a) && #[trigger] keys[i] == key,
{
    let (first, last) = if a <= b {
        (a, b)
    } else {
        (b, a)
    };
    let part = keys.subrange(first, last + 1);
    assert(between(keys, a, b) =~= part.to_set());
    assert(between(keys, b, a) =~= part.to_set());
    if part.contains(key) {
        let k = choose|k: int| 0 <= k < part.len() && part[k] == key;
        assert(keys[first + k] == key);
    }
    if exists|i: int| (a <= i <= b || b <= i <= a) && #[trigger] keys[i] == key {
        let i = choose|i: int| (a <= i <= b || b <= i <= a) && #[trigger] keys[i] == key;
        assert(part[i - first] == key);
    }
}

} // verus!
