//! The open tabs and which of them is active.

use crate::text;
use vstd::prelude::*;

verus! {

/// An open log: the number that stands for its path, and its title.
#[derive(Debug)]
pub struct Tab {
    pub path: u64,
    pub title: String,
}

impl Clone for Tab {
    fn clone(&self) -> (r: Tab)
        ensures
            r == *self,
    {
        Tab { path: self.path, title: self.title.clone() }
    }
}

/// The open tabs.
pub struct TabList {
    pub tabs: Vec<Tab>,
    pub active: usize,
}

/// The paths of some tabs.
pub open spec fn paths(tabs: Seq<Tab>) -> Seq<u64> {
    tabs.map_values(|tab: Tab| tab.path)
}

/// What opening a log does.
#[derive(Clone, Copy, Debug, PartialEq, Eq, Structural)]
pub enum Opening {
    /// It is open already, and becomes active.
    Existing(usize),
    /// It has to be loaded.
    Load,
}

/// The place of a path among some tabs.
pub open spec fn place_of(tabs: Seq<Tab>, path: u64) -> Option<int> {
    if paths(tabs).contains(path) {
        Some(paths(tabs).index_of(path))
    } else {
        None
    }
}

impl TabList {
    /// The active tab is there, if any is, and no log is open twice.
    pub open spec fn wf(&self) -> bool {
        &&& self.active < self.tabs@.len() || (self.tabs@.len() == 0 && self.active == 0)
        &&& paths(self.tabs@).no_duplicates()
    }

    /// The path of the active tab.
    pub open spec fn active_path(&self) -> Option<u64> {
        if self.active < self.tabs@.len() {
            Some(self.tabs@[self.active as int].path)
        } else {
            None
        }
    }

    /// No tabs.
    pub fn new() -> (r: TabList)
        ensures
            r.wf(),
            r.tabs@.len() == 0,
    {
        TabList { tabs: Vec::new(), active: 0 }
    }

    /// The place of a path.
    pub fn position(&self, path: u64) -> (r: Option<usize>)
        requires
            paths(self.tabs@).no_duplicates(),
        ensures
            match r {
                Some(index) => index < self.tabs@.len() && self.tabs@[index as int].path == path
                    && place_of(self.tabs@, path) == Some(index as int),
                None => place_of(self.tabs@, path) is None && forall|k: int|
                    0 <= k < self.tabs@.len() ==> (#[trigger] self.tabs@[k]).path != path,
            },
    {
        let mut i: usize = 0;
        while i < self.tabs.len()
            invariant
                i <= self.tabs@.len(),
                paths(self.tabs@).no_duplicates(),
                forall|k: int| 0 <= k < i ==> (#[trigger] self.tabs@[k]).path != path,
            decreases self.tabs@.len() - i,
        {
            if self.tabs[i].path == path {
                proof {
                    let all = paths(self.tabs@);
                    assert(all[i as int] == path);
                    assert(all.contains(path));
                    let j = all.index_of(path);
                    assert(all[j] == path);
                    assert(j == i);
                }
                return Some(i);
            }
            i += 1;
        }
        proof {
            if paths(self.tabs@).contains(path) {
                let k = choose|k: int|
                    0 <= k < paths(self.tabs@).len() && paths(self.tabs@)[k] == path;
                assert(self.tabs@[k].path == path);
            }
        }
        None
    }

    /// Makes a tab active, if it is there.
    pub fn set_active(&mut self, index: usize) -> (r: bool)
        requires
            old(self).wf(),
        ensures
            final(self).wf(),
            r == (index < old(self).tabs@.len()),
            final(self).tabs == old(self).tabs,
            final(self).active == if r {
                index
            } else {
                old(self).active
            },
    {
        if index >= self.tabs.len() {
            return false;
        }
        self.active = index;
        true
    }

    /// Opens a log: makes its tab active, if there is one.
    pub fn open_log(&mut self, path: u64) -> (r: Opening)
        requires
            old(self).wf(),
        ensures
            final(self).wf(),
            final(self).tabs == old(self).tabs,
            match place_of(old(self).tabs@, path) {
                Some(index) => r == Opening::Existing(index as usize) && final(self).active == index
                    && final(self).active_path() == Some(path),
                None => r == Opening::Load && final(self).active == old(self).active,
            },
    {
        match self.position(path) {
            Some(index) => {
                self.active = index;
                Opening::Existing(index)
            },
            None => Opening::Load,
        }
    }

    /// Adds a tab for a log that was loaded, and makes it active.
    pub fn add_tab(&mut self, path: u64, title: String)
        requires
            old(self).wf(),
            place_of(old(self).tabs@, path) is None,
        ensures
            final(self).wf(),
            final(self).tabs@ == old(self).tabs@.push(Tab { path, title }),
            final(self).active == old(self).tabs@.len(),
            final(self).active_path() == Some(path),
    {
        let ghost before = paths(self.tabs@);
        self.active = self.tabs.len();
        self.tabs.push(Tab { path, title });
        proof {
            let after = paths(self.tabs@);
            assert(after =~= before.push(path));
            assert forall|i: int, j: int| 0 <= i < j < after.len() implies after[i] != after[j] by {
                if j == before.len() {
                    assert(before.contains(before[i]));
                }
            }
        }
    }

    /// Changes the title of the tab of a path, if there is one.
    pub fn set_title(&mut self, path: u64, title: String)
        requires
            old(self).wf(),
        ensures
            final(self).wf(),
            final(self).active == old(self).active,
            match place_of(old(self).tabs@, path) {
                Some(index) => final(self).tabs@ == old(self).tabs@.update(
                    index,
                    Tab { path, title },
                ),
                None => final(self).tabs@ == old(self).tabs@,
            },
    {
        let ghost before = paths(self.tabs@);
        if let Some(index) = self.position(path) {
            self.tabs.set(index, Tab { path, title });
            assert(paths(self.tabs@) =~= before);
        }
    }

    /// Closes a tab, if it is there. The active tab stays active; if it is the one that is
    /// closed, the tab that takes its place becomes active, or else the last one. Then that
    /// tab has to be filtered again.
    pub fn close_tab(&mut self, index: usize) -> (refilter: bool)
        requires
            old(self).wf(),
        ensures
            final(self).wf(),
            index >= old(self).tabs@.len() ==> *final(self) == *old(self) && !refilter,
            index < old(self).tabs@.len() ==> {
                let rest = old(self).tabs@.remove(index as int);
                &&& final(self).tabs@ == rest
                &&& refilter == (index == old(self).active && rest.len() > 0)
                &&& index != old(self).active ==> final(self).active_path() == old(self).active_path()
                &&& final(self).active == if rest.len() == 0 {
                    0
                } else if index == old(self).active {
                    if index < rest.len() {
                        index as int
                    } else {
                        rest.len() - 1
                    }
                } else if index < old(self).active {
                    old(self).active - 1
                } else {
                    old(self).active as int
                }
            },
    {
        if index >= self.tabs.len() {
            return false;
        }
        let removed_active = index == self.active;
        let active = self.active;
        let ghost before = self.tabs@;
        self.tabs.remove(index);
        proof {
            lemma_removed_distinct(before, index as int);
        }
        if self.tabs.len() == 0 {
            self.active = 0;
        } else if removed_active {
            self.active = if index < self.tabs.len() {
                index
            } else {
                self.tabs.len() - 1
            };
        } else if index < active {
            self.active = active - 1;
        }
        removed_active && self.tabs.len() > 0
    }

    /// Makes the tab of a path active again after others were closed; if it is gone itself, the
    /// tab in its place, or else the last one. Says whether the active tab has to be filtered
    /// again.
    fn restore_active_path(&mut self, path: Option<u64>) -> (refilter: bool)
        requires
            paths(old(self).tabs@).no_duplicates(),
        ensures
            final(self).wf(),
            final(self).tabs == old(self).tabs,
            final(self).active == restored_place(old(self).tabs@, path, old(self).active as nat),
            refilter == (old(self).tabs@.len() > 0 && (final(self).active != old(self).active || (
            path is Some && final(self).active_path() != path))),
    {
        if self.tabs.len() == 0 {
            self.active = 0;
            return false;
        }
        let found = match path {
            Some(path) => self.position(path),
            None => None,
        };
        let next: usize = match found {
            Some(index) => index,
            None => if self.active < self.tabs.len() {
                self.active
            } else {
                self.tabs.len() - 1
            },
        };
        let moved = match path {
            Some(path) => self.tabs[next].path != path,
            None => false,
        };
        let changed = self.active != next || moved;
        self.active = next;
        changed
    }

    /// Closes the tabs before one.
    pub fn close_tabs_before(&mut self, index: usize) -> (refilter: bool)
        requires
            old(self).wf(),
        ensures
            final(self).wf(),
            index == 0 || index >= old(self).tabs@.len() ==> *final(self) == *old(self)
                && !refilter,
            0 < index < old(self).tabs@.len() ==> {
                let rest = old(self).tabs@.skip(index as int);
                &&& final(self).tabs@ == rest
                &&& final(self).active == restored_place(
                    rest,
                    old(self).active_path(),
                    old(self).active as nat,
                )
                &&& old(self).active >= index ==> final(self).active_path() == old(self).active_path()
                &&& refilter == (final(self).active != old(self).active
                    || final(self).active_path() != old(self).active_path())
            },
    {
        if index == 0 || index >= self.tabs.len() {
            return false;
        }
        let path = Some(self.tabs[self.active].path);
        let ghost before = self.tabs@;
        let mut rest: Vec<Tab> = Vec::new();
        let mut i: usize = index;
        while i < self.tabs.len()
            invariant
                index <= i <= self.tabs@.len(),
                *self == *old(self),
                before == self.tabs@,
                rest@ == before.subrange(index as int, i as int),
            decreases self.tabs@.len() - i,
        {
            rest.push(self.tabs[i].clone());
            assert(before.subrange(index as int, i + 1) =~= before.subrange(
                index as int,
                i as int,
            ).push(before[i as int]));
            i += 1;
        }
        assert(rest@ =~= before.skip(index as int));
        self.tabs = rest;
        proof {
            lemma_part_distinct(before, index as int, before.len() as int);
            assert(before.subrange(index as int, before.len() as int) =~= self.tabs@);
            if old(self).active >= index {
                lemma_place(self.tabs@, old(self).active - index);
            }
        }
        self.restore_active_path(path)
    }

    /// Closes the tabs after one.
    pub fn close_tabs_after(&mut self, index: usize) -> (refilter: bool)
        requires
            old(self).wf(),
        ensures
            final(self).wf(),
            index + 1 >= old(self).tabs@.len() ==> *final(self) == *old(self) && !refilter,
            index + 1 < old(self).tabs@.len() ==> {
                let rest = old(self).tabs@.take(index + 1);
                &&& final(self).tabs@ == rest
                &&& final(self).active == restored_place(
                    rest,
                    old(self).active_path(),
                    old(self).active as nat,
                )
                &&& old(self).active <= index ==> final(self).active_path() == old(self).active_path()
                &&& refilter == (final(self).active != old(self).active
                    || final(self).active_path() != old(self).active_path())
            },
    {
        if self.tabs.len() == 0 || index >= self.tabs.len() - 1 {
            return false;
        }
        let path = Some(self.tabs[self.active].path);
        let ghost before = self.tabs@;
        self.tabs.truncate(index + 1);
        proof {
            lemma_part_distinct(before, 0, index + 1);
            assert(before.subrange(0, index + 1) =~= self.tabs@);
            if old(self).active <= index {
                lemma_place(self.tabs@, old(self).active as int);
            }
        }
        self.restore_active_path(path)
    }

    /// Closes all tabs.
    pub fn close_all_tabs(&mut self)
        ensures
            final(self).wf(),
            final(self).tabs@.len() == 0,
    {
        self.tabs = Vec::new();
        self.active = 0;
    }

    /// Closes the tabs whose flag is set.
    pub fn close_flagged(&mut self, closing: &Vec<bool>) -> (refilter: bool)
        requires
            old(self).wf(),
            closing@.len() == old(self).tabs@.len(),
        ensures
            final(self).wf(),
            final(self).tabs@ == unflagged(old(self).tabs@, closing@, closing@.len()),
            final(self).active == restored_place(
                final(self).tabs@,
                old(self).active_path(),
                old(self).active as nat,
            ),
            old(self).tabs@.len() > 0 && !closing@[old(self).active as int]
                ==> final(self).active_path() == old(self).active_path(),
            refilter == (final(self).tabs@.len() > 0 && (final(self).active != old(self).active
                || final(self).active_path() != old(self).active_path())),
    {
        let path = if self.active < self.tabs.len() {
            Some(self.tabs[self.active].path)
        } else {
            None
        };
        let ghost before = self.tabs@;
        let mut rest: Vec<Tab> = Vec::new();
        let mut i: usize = 0;
        while i < self.tabs.len()
            invariant
                i <= self.tabs@.len(),
                closing@.len() == self.tabs@.len(),
                *self == *old(self),
                before == self.tabs@,
                rest@ == unflagged(before, closing@, i as nat),
            decreases self.tabs@.len() - i,
        {
            if !closing[i] {
                rest.push(self.tabs[i].clone());
            }
            i += 1;
        }
        self.tabs = rest;
        proof {
            lemma_unflagged(before, closing@, closing@.len());
            if before.len() > 0 && !closing@[old(self).active as int] {
                let path = before[old(self).active as int].path;
                assert(paths(self.tabs@).contains(path));
                let k = choose|k: int|
                    0 <= k < paths(self.tabs@).len() && paths(self.tabs@)[k] == path;
                lemma_place(self.tabs@, k);
            }
        }
        self.restore_active_path(path)
    }

    /// Moves a tab to the place of another one, in front of it. The active tab stays active.
    pub fn reorder_tab(&mut self, from: usize, target: usize)
        requires
            old(self).wf(),
        ensures
            final(self).wf(),
            from >= old(self).tabs@.len() || target >= old(self).tabs@.len() || from == target
                ==> *final(self) == *old(self),
            from < old(self).tabs@.len() && target < old(self).tabs@.len() && from != target ==> {
                &&& final(self).tabs@ == moved(old(self).tabs@, from as int, target as int)
                &&& final(self).active_path() == old(self).active_path()
            },
    {
        if from >= self.tabs.len() || target >= self.tabs.len() || from == target {
            return ;
        }
        let path = self.tabs[self.active].path;
        let ghost before = self.tabs@;
        let tab = self.tabs.remove(from);
        let insertion: usize = if from < target {
            target - 1
        } else {
            target
        };
        self.tabs.insert(insertion, tab);
        proof {
            lemma_moved_distinct(before, from as int, insertion as int);
            assert(self.tabs@ =~= moved(before, from as int, target as int));
            let k = moved_place(old(self).active as int, from as int, insertion as int);
            assert(self.tabs@[k] == before[old(self).active as int]);
            lemma_place(self.tabs@, k);
        }
        self.active = match self.position(path) {
            Some(index) => index,
            None => insertion,
        };
    }

    /// The tab behind or before the active one, in a round.
    pub fn neighbour(&self, forward: bool) -> (r: Option<usize>)
        requires
            self.wf(),
        ensures
            match r {
                Some(index) => index < self.tabs@.len() && index == if forward {
                    (self.active + 1) % (self.tabs@.len() as int)
                } else {
                    (self.active + self.tabs@.len() - 1) % (self.tabs@.len() as int)
                },
                None => self.tabs@.len() == 0,
            },
    {
        let n = self.tabs.len();
        if n == 0 {
            return None;
        }
        let active = self.active;
        if forward {
            let next: usize = if active == n - 1 {
                0
            } else {
                active + 1
            };
            assert(next == (active + 1) % (n as int)) by {
                if active == n - 1 {
                    assert((active + 1) % (n as int) == 0) by (nonlinear_arith)
                        requires
                            active + 1 == n,
                            n > 0,
                    ;
                } else {
                    assert((active + 1) % (n as int) == active + 1) by (nonlinear_arith)
                        requires
                            0 <= active + 1 < n,
                    ;
                }
            }
            Some(next)
        } else {
            let next: usize = if active == 0 {
                n - 1
            } else {
                active - 1
            };
            assert(next == (active + n - 1) % (n as int)) by {
                if active == 0 {
                    assert((active + n - 1) % (n as int) == n - 1) by (nonlinear_arith)
                        requires
                            active == 0,
                            n > 0,
                    ;
                } else {
                    assert((active + n - 1) % (n as int) == active - 1) by (nonlinear_arith)
                        requires
                            0 < active < n,
                    ;
                }
            }
            Some(next)
        }
    }
}

/// Where the active tab is to be found after others were closed.
pub open spec fn restored_place(tabs: Seq<Tab>, path: Option<u64>, active: nat) -> int {
    if tabs.len() == 0 {
        0
    } else if path is Some && place_of(tabs, path.unwrap()) is Some {
        place_of(tabs, path.unwrap()).unwrap()
    } else if active < tabs.len() {
        active as int
    } else {
        tabs.len() - 1
    }
}

/// Those of the first `count` tabs whose flag is not set.
pub open spec fn unflagged(tabs: Seq<Tab>, flags: Seq<bool>, count: nat) -> Seq<Tab>
    decreases count,
{
    if count == 0 {
        Seq::empty()
    } else if flags[count - 1] {
        unflagged(tabs, flags, (count - 1) as nat)
    } else {
        unflagged(tabs, flags, (count - 1) as nat).push(tabs[count - 1])
    }
}

/// Tabs with one moved to the place in front of another.
pub open spec fn moved(tabs: Seq<Tab>, from: int, target: int) -> Seq<Tab> {
    let insertion = if from < target {
        target - 1
    } else {
        target
    };
    tabs.remove(from).insert(insertion, tabs[from])
}

/// Where a tab stands after one was moved.
pub open spec fn moved_place(i: int, from: int, insertion: int) -> int {
    let rest = if i < from {
        i
    } else {
        i - 1
    };
    if i == from {
        insertion
    } else if rest < insertion {
        rest
    } else {
        rest + 1
    }
}

proof fn lemma_place(tabs: Seq<Tab>, i: int)
    requires
        paths(tabs).no_duplicates(),
        0 <= i < tabs.len(),
    ensures
        place_of(tabs, tabs[i].path) == Some(i),
{
    let all = paths(tabs);
    assert(all[i] == tabs[i].path);
    assert(all.contains(tabs[i].path));
    let j = all.index_of(tabs[i].path);
    assert(all[j] == all[i]);
}

proof fn lemma_removed_distinct(tabs: Seq<Tab>, i: int)
    requires
        paths(tabs).no_duplicates(),
        0 <= i < tabs.len(),
    ensures
        paths(tabs.remove(i)).no_duplicates(),
{
    let all = paths(tabs);
    let rest = paths(tabs.remove(i));
    assert forall|a: int, b: int| 0 <= a < b < rest.len() implies rest[a] != rest[b] by {
        let x = if a < i {
            a
        } else {
            a + 1
        };
        let y = if b < i {
            b
        } else {
            b + 1
        };
        assert(all[x] == rest[a]);
        assert(all[y] == rest[b]);
    }
}

proof fn lemma_part_distinct(tabs: Seq<Tab>, from: int, to: int)
    requires
        paths(tabs).no_duplicates(),
        0 <= from <= to <= tabs.len(),
    ensures
        paths(tabs.subrange(from, to)).no_duplicates(),
{
    let all = paths(tabs);
    let part = paths(tabs.subrange(from, to));
    assert forall|a: int, b: int| 0 <= a < b < part.len() implies part[a] != part[b] by {
        assert(all[from + a] == part[a]);
        assert(all[from + b] == part[b]);
    }
}

proof fn lemma_unflagged(tabs: Seq<Tab>, flags: Seq<bool>, count: nat)
    requires
        paths(tabs).no_duplicates(),
        count <= tabs.len(),
        tabs.len() == flags.len(),
    ensures
        paths(unflagged(tabs, flags, count)).no_duplicates(),
        forall|path: u64| #[trigger]
            paths(unflagged(tabs, flags, count)).contains(path) <==> exists|k: int|
                0 <= k < count && (#[trigger] tabs[k]).path == path && !flags[k],
    decreases count,
{
    let all = paths(unflagged(tabs, flags, count));
    if count > 0 {
        lemma_unflagged(tabs, flags, (count - 1) as nat);
        let before = paths(unflagged(tabs, flags, (count - 1) as nat));
        let last = tabs[count - 1].path;
        if !flags[count - 1] {
            assert(all =~= before.push(last));
            assert(!before.contains(last)) by {
                if before.contains(last) {
                    let k = choose|k: int|
                        0 <= k < count - 1 && (#[trigger] tabs[k]).path == last && !flags[k];
                    assert(paths(tabs)[k] == paths(tabs)[count - 1]);
                }
            }
            assert forall|i: int, j: int| 0 <= i < j < all.len() implies all[i] != all[j] by {
                if j == before.len() {
                    assert(before.contains(before[i]));
                }
            }
        }
        assert forall|path: u64| #[trigger]
            all.contains(path) <==> exists|k: int|
                0 <= k < count && (#[trigger] tabs[k]).path == path && !flags[k] by {
            if all.contains(path) {
                let m = choose|m: int| 0 <= m < all.len() && all[m] == path;
                if m < before.len() {
                    assert(before[m] == path);
                    assert(before.contains(path));
                } else {
                    assert(tabs[count - 1].path == path);
                }
            }
            if before.contains(path) {
                let m = choose|m: int| 0 <= m < before.len() && before[m] == path;
                assert(all[m] == path);
            }
            if !flags[count - 1] && path == last {
                assert(all[all.len() - 1] == path);
            }
        }
    }
}

proof fn lemma_moved_distinct(tabs: Seq<Tab>, from: int, insertion: int)
    requires
        paths(tabs).no_duplicates(),
        0 <= from < tabs.len(),
        0 <= insertion < tabs.len(),
    ensures
        paths(tabs.remove(from).insert(insertion, tabs[from])).no_duplicates(),
        forall|i: int|
            0 <= i < tabs.len() ==> tabs.remove(from).insert(insertion, tabs[from])[moved_place(
                i,
                from,
                insertion,
            )] == #[trigger] tabs[i],
{
    let after = tabs.remove(from).insert(insertion, tabs[from]);
    let all = paths(tabs);
    let rest = paths(after);
    assert forall|a: int, b: int| 0 <= a < b < rest.len() implies rest[a] != rest[b] by {
        let x = origin_of(a, from, insertion);
        let y = origin_of(b, from, insertion);
        assert(after[a] == tabs[x]);
        assert(after[b] == tabs[y]);
        assert(x != y);
        assert(all[x] == rest[a]);
        assert(all[y] == rest[b]);
    }
}

/// Where a tab stood before one was moved.
spec fn origin_of(i: int, from: int, insertion: int) -> int {
    let rest = if i < insertion {
        i
    } else {
        i - 1
    };
    if i == insertion {
        from
    } else if rest < from {
        rest
    } else {
        rest + 1
    }
}

/// Moving a tab loses none and adds none.
pub proof fn moving_keeps_the_tabs(tabs: Seq<Tab>, from: int, target: int)
    requires
        0 <= from < tabs.len(),
        0 <= target < tabs.len(),
    ensures
        moved(tabs, from, target).to_multiset() =~= tabs.to_multiset(),
        moved(tabs, from, target).len() == tabs.len(),
{
    broadcast use vstd::seq_lib::group_to_multiset_ensures;

    let insertion = if from < target {
        target - 1
    } else {
        target
    };
    let rest = tabs.remove(from);
    assert(rest.insert(insertion, tabs[from]) =~= moved(tabs, from, target));
    vstd::seq_lib::to_multiset_remove(tabs, from);
    vstd::seq_lib::to_multiset_insert(rest, insertion, tabs[from]);
    assert(tabs.contains(tabs[from]));
}

/// What the menu of a tab offers.
#[derive(Clone, Copy, Debug, PartialEq, Eq, Structural)]
pub enum TabCommand {
    Close,
    CloseBefore,
    CloseAfter,
    CloseAll,
}

/// What the menu of a tab offers, from top to bottom.
pub open spec fn tab_commands() -> Seq<TabCommand> {
    seq![
        TabCommand::Close,
        TabCommand::CloseBefore,
        TabCommand::CloseAfter,
        TabCommand::CloseAll,
    ]
}

/// A tab as it is shown: its title, and whether it is the active one.
pub struct TabView {
    pub title: String,
    pub active: bool,
}

/// The tabs as they are shown, and what the menu of each offers.
pub fn render_tabs(list: &TabList) -> (r: (Vec<TabView>, Vec<TabCommand>))
    ensures
        r.0@.len() == list.tabs@.len(),
        forall|i: int|
            0 <= i < r.0@.len() ==> (#[trigger] r.0@[i]).title == list.tabs@[i].title
                && r.0@[i].active == (i == list.active),
        r.1@ == tab_commands(),
{
    let mut out: Vec<TabView> = Vec::new();
    let mut i: usize = 0;
    while i < list.tabs.len()
        invariant
            i <= list.tabs@.len(),
            out@.len() == i,
            forall|k: int|
                0 <= k < i ==> (#[trigger] out@[k]).title == list.tabs@[k].title && out@[k].active
                    == (k == list.active),
        decreases list.tabs@.len() - i,
    {
        out.push(TabView { title: list.tabs[i].title.clone(), active: i == list.active });
        i += 1;
    }
    let mut commands: Vec<TabCommand> = Vec::new();
    commands.push(TabCommand::Close);
    commands.push(TabCommand::CloseBefore);
    commands.push(TabCommand::CloseAfter);
    commands.push(TabCommand::CloseAll);
    assert(commands@ =~= tab_commands());
    (out, commands)
}

/// The title of a log: its file name, or else its whole path.
pub fn tab_title(file_name: Option<&str>, path: &str) -> (r: String)
    ensures
        r@ == match file_name {
            Some(name) => name@,
            None => path@,
        },
{
    match file_name {
        Some(name) => name.to_owned(),
        None => path.to_owned(),
    }
}

/// The title of the log of a device.
pub fn device_title(serial: &str) -> (r: String)
    ensures
        r@ == "ADB "@ + serial@,
{
    text::concat2("ADB ", serial)
}

/// Closing tabs keeps just those that are not to be closed, in their order.
pub proof fn tabs_that_are_not_closed_stay(tabs: Seq<Tab>, flags: Seq<bool>, count: nat)
    requires
        count <= tabs.len(),
        count <= flags.len(),
    ensures
        unflagged(tabs, flags, count) == Seq::new(count, |i: int| i).filter(
            |i: int| !flags[i],
        ).map_values(|i: int| tabs[i]),
    decreases count,
{
    reveal(Seq::filter);
    let places = Seq::new(count, |i: int| i);
    let kept = |i: int| !flags[i];
    let tab = |i: int| tabs[i];
    if count > 0 {
        let before = Seq::new((count - 1) as nat, |i: int| i);
        tabs_that_are_not_closed_stay(tabs, flags, (count - 1) as nat);
        assert(places.drop_last() =~= before);
        assert(places.last() == count - 1);
        assert(before.filter(kept).push(count - 1).map_values(tab) =~= before.filter(
            kept,
        ).map_values(tab).push(tabs[count - 1]));
    }
    assert(unflagged(tabs, flags, count) =~= places.filter(kept).map_values(tab));
}

/// A tab that is moved onto another goes before that one, and the others stay in their order.
pub proof fn a_moved_tab_goes_before_its_target(tabs: Seq<Tab>, from: int, target: int)
    requires
        0 <= from < tabs.len(),
        0 <= target < tabs.len(),
    ensures
        ({
            let place = if from < target {
                target - 1
            } else {
                target
            };
            &&& moved(tabs, from, target)[place] == tabs[from]
            &&& moved(tabs, from, target).remove(place) == tabs.remove(from)
        }),
        from != target && from + 1 != target ==> exists|k: int|
            0 <= k < tabs.len() - 1 && #[trigger] moved(tabs, from, target)[k] == tabs[from]
                && moved(tabs, from, target)[k + 1] == tabs[target],
{
    let place = if from < target {
        target - 1
    } else {
        target
    };
    let after = moved(tabs, from, target);
    assert(after.remove(place) =~= tabs.remove(from));
    if from != target && from + 1 != target {
        assert(after[place] == tabs[from] && after[place + 1] == tabs[target]);
    }
}

/// After tabs were closed, the tab that was active is active still if it is there; else the place
/// stays, as far as there is a tab.
pub proof fn the_active_tab_stays_active(tabs: Seq<Tab>, path: u64, active: nat, i: int)
    requires
        paths(tabs).no_duplicates(),
    ensures
        0 <= i < tabs.len() && tabs[i].path == path ==> restored_place(tabs, Some(path), active)
            == i,
        (forall|k: int| 0 <= k < tabs.len() ==> (#[trigger] tabs[k]).path != path) ==> restored_place(
            tabs,
            Some(path),
            active,
        ) == if tabs.len() == 0 {
            0
        } else if active < tabs.len() {
            active as int
        } else {
            tabs.len() - 1
        },
{
    let all = paths(tabs);
    if 0 <= i < tabs.len() && tabs[i].path == path {
        assert(all[i] == path);
        assert(all.contains(path));
        let k = all.index_of(path);
        assert(0 <= k < all.len() && all[k] == path);
    }
    if all.contains(path) {
        let k = choose|k: int| 0 <= k < all.len() && all[k] == path;
        assert(tabs[k].path == path);
    }
}

} // verus!
