//! What is kept between two runs: recent files, searches, the theme and the place
//! of the filter panel.

use crate::json;
use crate::layout::DockPlacement;
use crate::search;
use crate::search::MAX_SEARCH_HISTORY;
use crate::text;
use crate::theme;
use vstd::prelude::*;
use vstd::std_specs::cmp::PartialEqSpec;
use vstd::std_specs::convert::FromSpec;

verus! {

/// How many files are remembered.
pub const MAX_RECENT_FILES: usize = 10;

/// The file that holds the place of the filter panel.
pub fn settings_file() -> (r: &'static str)
    ensures
        r@ == "settings.conf"@,
{
    "settings.conf"
}

/// The file that holds the arrangement of the panels.
pub fn dock_layout_file() -> (r: &'static str)
    ensures
        r@ == "dock-layout.json"@,
{
    "dock-layout.json"
}

/// The file that holds the recent files.
pub fn recent_files_file() -> (r: &'static str)
    ensures
        r@ == "recent-files.json"@,
{
    "recent-files.json"
}

/// The file that holds the searches.
pub fn search_history_file() -> (r: &'static str)
    ensures
        r@ == "search-history.json"@,
{
    "search-history.json"
}

/// The file that holds the name of the theme.
pub fn theme_file() -> (r: &'static str)
    ensures
        r@ == "theme.conf"@,
{
    "theme.conf"
}

/// What a cached file holds, and whether that has to be written to its present place: it is
/// looked for there first, and then where earlier versions kept it.
pub fn read_cache_file(present: Option<String>, legacy: Option<String>) -> (r: (
    Option<String>,
    bool,
))
    ensures
        r.0 == (if present is Some {
            present
        } else {
            legacy
        }),
        r.1 == (present is None && legacy is Some),
{
    match present {
        Some(contents) => (Some(contents), false),
        None => match legacy {
            Some(contents) => (Some(contents), true),
            None => (None, false),
        },
    }
}

/// The place that a line of the settings gives to the filter panel, if it gives one.
pub open spec fn placement_of_line(line: Seq<char>) -> Option<DockPlacement> {
    match text::split_once(line, '=') {
        Some((key, value)) => if text::trim(key) != "filter_placement"@ {
            None
        } else if text::trim(value) == "left"@ {
            Some(DockPlacement::Left)
        } else if text::trim(value) == "right"@ {
            Some(DockPlacement::Right)
        } else if text::trim(value) == "bottom"@ {
            Some(DockPlacement::Bottom)
        } else {
            None
        },
        None => None,
    }
}

/// The first place that some lines give to the filter panel.
pub open spec fn placement_of_lines(lines: Seq<Seq<char>>) -> Option<DockPlacement>
    decreases lines.len(),
{
    if lines.len() == 0 {
        None
    } else {
        match placement_of_line(lines[0]) {
            Some(placement) => Some(placement),
            None => placement_of_lines(lines.skip(1)),
        }
    }
}

/// Whether two texts are equal, one of them given by its characters.
fn reads(chars: &Vec<char>, wanted: &str) -> (r: bool)
    ensures
        r == (chars@ == wanted@),
{
    let other = text::chars_of(wanted);
    text::same_chars(chars, &other)
}

/// The place that a line of the settings gives to the filter panel.
fn read_placement(line: &Vec<char>) -> (r: Option<DockPlacement>)
    ensures
        r == placement_of_line(line@),
{
    match text::split_once_at(line, '=') {
        Some((key, value)) => {
            let key = text::trimmed(&key);
            let value = text::trimmed(&value);
            if !reads(&key, "filter_placement") {
                None
            } else if reads(&value, "left") {
                Some(DockPlacement::Left)
            } else if reads(&value, "right") {
                Some(DockPlacement::Right)
            } else if reads(&value, "bottom") {
                Some(DockPlacement::Bottom)
            } else {
                None
            }
        },
        None => None,
    }
}

/// The place of the filter panel in the settings.
pub fn parse_filter_placement(contents: &str) -> (r: Option<DockPlacement>)
    ensures
        r == placement_of_lines(text::lines(contents@)),
{
    let lines = text::lines_of(&text::chars_of(contents));
    let ghost all = text::pieces(lines@);
    let mut i: usize = 0;
    assert(all.skip(0) =~= all);
    while i < lines.len()
        invariant
            i <= lines@.len(),
            all == text::pieces(lines@),
            all == text::lines(contents@),
            placement_of_lines(all.skip(i as int)) == placement_of_lines(all),
        decreases lines@.len() - i,
    {
        assert(all.skip(i as int)[0] == lines@[i as int]@);
        assert(all.skip(i as int).skip(1) =~= all.skip(i + 1));
        let placement = read_placement(&lines[i]);
        if placement.is_some() {
            return placement;
        }
        i += 1;
    }
    None
}

/// The place of the filter panel; without a setting it stands on the right.
pub fn load_filter_placement(contents: Option<String>) -> (r: DockPlacement)
    ensures
        r == match contents {
            Some(contents) => match placement_of_lines(text::lines(contents@)) {
                Some(placement) => placement,
                None => DockPlacement::Right,
            },
            None => DockPlacement::Right,
        },
{
    match contents {
        Some(contents) => match parse_filter_placement(&contents) {
            Some(placement) => placement,
            None => DockPlacement::Right,
        },
        None => DockPlacement::Right,
    }
}

/// The theme that a stored name selects. The names of the former modes stand for the default
/// themes; a blank name selects none.
pub open spec fn stored_theme(contents: Seq<char>) -> Option<Seq<char>> {
    let name = text::trim(contents);
    if name.len() == 0 {
        None
    } else if text::lower(name) == "light"@ {
        Some(theme::DEFAULT_LIGHT_THEME@)
    } else if text::lower(name) == "dark"@ {
        Some(theme::DEFAULT_DARK_THEME@)
    } else {
        Some(name)
    }
}

/// The theme that a stored name selects.
pub fn parse_theme_name(contents: &str) -> (r: Option<String>)
    ensures
        match r {
            Some(name) => stored_theme(contents@) == Some(name@),
            None => stored_theme(contents@) is None,
        },
{
    let name = text::trimmed(&text::chars_of(contents));
    if name.len() == 0 {
        return None;
    }
    let lower = text::to_lower(&name);
    if reads(&lower, "light") {
        Some(theme::DEFAULT_LIGHT_THEME.to_owned())
    } else if reads(&lower, "dark") {
        Some(theme::DEFAULT_DARK_THEME.to_owned())
    } else {
        Some(text::text_of(&name))
    }
}

/// The theme to start with; the default dark one if none is stored.
pub fn load_theme_name(contents: Option<String>) -> (r: String)
    ensures
        r@ == match contents {
            Some(contents) => match stored_theme(contents@) {
                Some(name) => name,
                None => theme::DEFAULT_DARK_THEME@,
            },
            None => theme::DEFAULT_DARK_THEME@,
        },
{
    match contents {
        Some(contents) => match parse_theme_name(&contents) {
            Some(name) => name,
            None => theme::DEFAULT_DARK_THEME.to_owned(),
        },
        None => theme::DEFAULT_DARK_THEME.to_owned(),
    }
}

/// Searches as they are kept: trimmed, without blanks and repetitions, the first ones.
pub open spec fn normal_history(items: Seq<Seq<char>>) -> Seq<Seq<char>>
    decreases items.len(),
{
    if items.len() == 0 {
        Seq::empty()
    } else {
        let before = normal_history(items.drop_last());
        let query = text::trim(items.last());
        if before.len() < MAX_SEARCH_HISTORY && query.len() > 0 && !before.contains(query) {
            before.push(query)
        } else {
            before
        }
    }
}

/// A list of searches that is as it should be kept.
pub open spec fn is_normal_history(items: Seq<Seq<char>>) -> bool {
    &&& items.len() <= MAX_SEARCH_HISTORY
    &&& items.no_duplicates()
    &&& forall|i: int|
        0 <= i < items.len() ==> (#[trigger] items[i]).len() > 0 && text::trim(items[i]) == items[i]
}

/// The list that a stored text holds; none if it holds no list.
pub open spec fn stored_list(contents: Seq<char>) -> Seq<Seq<char>> {
    match json::json_strings(contents) {
        Some(items) => items,
        None => Seq::empty(),
    }
}

/// Searches as they are kept.
pub fn normalize_search_history(items: &Vec<String>) -> (r: Vec<String>)
    ensures
        text::texts(r@) == normal_history(text::texts(items@)),
{
    let ghost all = text::texts(items@);
    let mut out: Vec<String> = Vec::new();
    let mut i: usize = 0;
    assert(text::texts(out@) =~= normal_history(all.take(0)));
    while i < items.len()
        invariant
            i <= items@.len(),
            all == text::texts(items@),
            text::texts(out@) == normal_history(all.take(i as int)),
        decreases items@.len() - i,
    {
        assert(all.take(i + 1).drop_last() =~= all.take(i as int));
        assert(all.take(i + 1).last() == items@[i as int]@);
        let query = text::text_of(&text::trimmed(&text::chars_of(&items[i])));
        assert(text::texts(out@).len() == out@.len());
        if out.len() < MAX_SEARCH_HISTORY && !query.as_str().is_empty() && !search::listed(
            &out,
            &query,
        ) {
            let ghost before = out@;
            out.push(query);
            assert(text::texts(out@) =~= text::texts(before).push(query@));
        }
        i += 1;
    }
    assert(all.take(i as int) =~= all);
    out
}

/// The searches that a stored text holds.
pub fn parse_search_history(contents: &str) -> (r: Vec<String>)
    ensures
        text::texts(r@) == normal_history(stored_list(contents@)),
{
    let items = match json::parse_strings(contents) {
        Some(items) => items,
        None => Vec::new(),
    };
    assert(text::texts(items@) =~= stored_list(contents@));
    normalize_search_history(&items)
}

/// The searches that were stored.
pub fn load_search_history(contents: Option<String>) -> (r: Vec<String>)
    ensures
        text::texts(r@) == match contents {
            Some(contents) => normal_history(stored_list(contents@)),
            None => Seq::empty(),
        },
{
    match contents {
        Some(contents) => parse_search_history(&contents),
        None => {
            let none: Vec<String> = Vec::new();
            assert(text::texts(none@) =~= Seq::empty());
            none
        },
    }
}

/// What to store of a list, or why nothing can be stored.
fn storable(directory_known: bool, items: &Vec<String>) -> (r: Result<String, String>)
    ensures
        match r {
            Ok(contents) => directory_known && contents@ == json::pretty_strings(
                text::texts(items@),
            ) && json::json_strings(contents@) == Some(text::texts(items@)),
            Err(message) => !directory_known && message@ == "executable cache directory not found"@,
        },
{
    if directory_known {
        Ok(json::pretty_list(items))
    } else {
        Err("executable cache directory not found".to_owned())
    }
}

/// What to store of the searches. There must be a directory to store it in.
pub fn save_search_history(directory_known: bool, queries: &Vec<String>) -> (r: Result<
    String,
    String,
>)
    ensures
        match r {
            Ok(contents) => directory_known && contents@ == json::pretty_strings(
                text::texts(queries@),
            ) && stored_list(contents@) == text::texts(queries@),
            Err(message) => !directory_known && message@ == "executable cache directory not found"@,
        },
{
    storable(directory_known, queries)
}

/// What to store of the recent files. There must be a directory to store it in.
pub fn save_recent_files(directory_known: bool, paths: &Vec<String>) -> (r: Result<String, String>)
    ensures
        match r {
            Ok(contents) => directory_known && contents@ == json::pretty_strings(
                text::texts(paths@),
            ) && stored_list(contents@) == text::texts(paths@),
            Err(message) => !directory_known && message@ == "executable cache directory not found"@,
        },
{
    storable(directory_known, paths)
}

/// Searches as they are kept need no change.
pub proof fn normal_history_is_kept(items: Seq<Seq<char>>)
    requires
        is_normal_history(items),
    ensures
        normal_history(items) == items,
    decreases items.len(),
{
    if items.len() > 0 {
        let rest = items.drop_last();
        assert(is_normal_history(rest)) by {
            assert forall|i: int| 0 <= i < rest.len() implies (#[trigger] rest[i]).len() > 0
                && text::trim(rest[i]) == rest[i] by {
                assert(rest[i] == items[i]);
            }
        }
        normal_history_is_kept(rest);
        assert(text::trim(items[items.len() - 1]) == items[items.len() - 1]);
        if rest.contains(items.last()) {
            let k = choose|k: int| 0 <= k < rest.len() && rest[k] == items.last();
            assert(items[k] == items[items.len() - 1]);
        }
        assert(items =~= rest.push(items.last()));
    } else {
        assert(normal_history(items) =~= items);
    }
}

/// Whatever was stored, the searches that are read are as they should be kept.
pub proof fn normal_history_is_normal(items: Seq<Seq<char>>)
    ensures
        is_normal_history(normal_history(items)),
    decreases items.len(),
{
    if items.len() > 0 {
        let before = normal_history(items.drop_last());
        normal_history_is_normal(items.drop_last());
        let query = text::trim(items.last());
        text::trim_is_idempotent(items.last());
        let after = normal_history(items);
        assert forall|i: int, j: int| 0 <= i < j < after.len() implies after[i] != after[j] by {
            if j == before.len() {
                assert(before.contains(before[i]));
            }
        }
    }
}

/// Searches that are stored and read again are the same, as long as they are as they should
/// be kept.
pub proof fn stored_history_reads_back(items: Seq<Seq<char>>, contents: Seq<char>)
    requires
        is_normal_history(items),
        stored_list(contents) == items,
    ensures
        normal_history(stored_list(contents)) == items,
{
    normal_history_is_kept(items);
}

/// Remembering a search that is trimmed and not blank keeps the list as it should be.
pub proof fn remembering_keeps_the_history_normal(items: Seq<Seq<char>>, query: Seq<char>)
    requires
        is_normal_history(items),
        query.len() > 0,
        text::trim(query) == query,
    ensures
        is_normal_history(search::remembered(items, query, MAX_SEARCH_HISTORY as nat)),
{
    search::remembering_keeps_the_list_distinct(items, query, MAX_SEARCH_HISTORY as nat);
    let after = search::remembered(items, query, MAX_SEARCH_HISTORY as nat);
    assert forall|i: int| 0 <= i < after.len() implies (#[trigger] after[i]).len() > 0
        && text::trim(after[i]) == after[i] by {
        assert(after.contains(after[i]));
        if after[i] != query {
            let k = choose|k: int| 0 <= k < items.len() && items[k] == after[i];
            assert(items[k].len() > 0);
        }
    }
}

/// A path that is equal to `path` is among some paths.
pub open spec fn has_path<P: PartialEq>(paths: Seq<P>, path: P) -> bool {
    exists|i: int| 0 <= i < paths.len() && (#[trigger] paths[i]).eq_spec(&path)
}

/// Recent files as they are kept: without blanks and repetitions, the first ones.
pub open spec fn normal_paths<P: PartialEq + From<String>>(items: Seq<String>) -> Seq<P>
    decreases items.len(),
{
    if items.len() == 0 {
        Seq::empty()
    } else {
        let before = normal_paths::<P>(items.drop_last());
        let path = P::from_spec(items.last());
        if before.len() < MAX_RECENT_FILES && items.last()@.len() > 0 && !has_path(before, path) {
            before.push(path)
        } else {
            before
        }
    }
}

/// Whether a path that is equal to `path` is among some paths.
fn holds_path<P: PartialEq>(paths: &Vec<P>, path: &P) -> (r: bool)
    requires
        P::obeys_eq_spec(),
    ensures
        r == has_path(paths@, *path),
{
    let mut i: usize = 0;
    while i < paths.len()
        invariant
            P::obeys_eq_spec(),
            i <= paths@.len(),
            forall|k: int| 0 <= k < i ==> !(#[trigger] paths@[k]).eq_spec(path),
        decreases paths@.len() - i,
    {
        if paths[i] == *path {
            assert(paths@[i as int].eq_spec(path));
            return true;
        }
        i += 1;
    }
    false
}

/// Recent files as they are kept.
pub fn normalize_recent_files<P: PartialEq + From<String>>(items: Vec<String>) -> (r: Vec<P>)
    requires
        P::obeys_eq_spec(),
        <P as FromSpec<String>>::obeys_from_spec(),
    ensures
        r@ == normal_paths::<P>(items@),
{
    let ghost all = items@;
    let mut out: Vec<P> = Vec::new();
    assert(out@ =~= normal_paths::<P>(all.take(0)));
    for item in it: items
        invariant
            P::obeys_eq_spec(),
            <P as FromSpec<String>>::obeys_from_spec(),
            it.seq() == all,
            out@ == normal_paths::<P>(all.take(it.index() as int)),
    {
        let ghost n = it.index() as int;
        assert(all.take(n + 1).drop_last() =~= all.take(n));
        if out.len() < MAX_RECENT_FILES && !item.as_str().is_empty() {
            let path = P::from(item);
            if !holds_path(&out, &path) {
                out.push(path);
            }
        }
    }
    assert(all.take(all.len() as int) =~= all);
    out
}

/// The recent files that a stored text holds.
pub fn parse_recent_files<P: PartialEq + From<String>>(contents: &str) -> (r: Vec<P>)
    requires
        P::obeys_eq_spec(),
        <P as FromSpec<String>>::obeys_from_spec(),
    ensures
        exists|items: Seq<String>| #[trigger]
            text::texts(items) == stored_list(contents@) && r@ == normal_paths::<P>(items),
{
    let items = match json::parse_strings(contents) {
        Some(items) => items,
        None => Vec::new(),
    };
    assert(text::texts(items@) =~= stored_list(contents@));
    normalize_recent_files(items)
}

/// The recent files that were stored.
pub fn load_recent_files<P: PartialEq + From<String>>(contents: Option<String>) -> (r: Vec<P>)
    requires
        P::obeys_eq_spec(),
        <P as FromSpec<String>>::obeys_from_spec(),
    ensures
        match contents {
            Some(contents) => exists|items: Seq<String>| #[trigger]
                text::texts(items) == stored_list(contents@) && r@ == normal_paths::<P>(items),
            None => r@.len() == 0,
        },
{
    match contents {
        Some(contents) => parse_recent_files(&contents),
        None => Vec::new(),
    }
}

/// A path and the others that are not equal to it, in order.
pub open spec fn other_paths<P: PartialEq>(paths: Seq<P>, path: P) -> Seq<P>
    decreases paths.len(),
{
    if paths.len() == 0 {
        Seq::empty()
    } else if paths.last().eq_spec(&path) {
        other_paths(paths.drop_last(), path)
    } else {
        other_paths(paths.drop_last(), path).push(paths.last())
    }
}

/// Recent files with one put to the front.
pub open spec fn remembered_paths<P: PartialEq>(paths: Seq<P>, path: P) -> Seq<P> {
    let all = seq![path] + other_paths(paths, path);
    if all.len() <= MAX_RECENT_FILES {
        all
    } else {
        all.take(MAX_RECENT_FILES as int)
    }
}

/// Puts a file to the front of the recent ones.
pub fn remember_file<P: PartialEq>(paths: Vec<P>, path: P) -> (r: Vec<P>)
    requires
        P::obeys_eq_spec(),
    ensures
        r@ == remembered_paths(paths@, path),
{
    let ghost all = paths@;
    let mut out: Vec<P> = Vec::new();
    assert(out@ =~= other_paths(all.take(0), path));
    for item in it: paths
        invariant
            P::obeys_eq_spec(),
            it.seq() == all,
            out@ == other_paths(all.take(it.index() as int), path),
    {
        let ghost n = it.index() as int;
        assert(all.take(n + 1).drop_last() =~= all.take(n));
        if !(item == path) {
            out.push(item);
        }
    }
    assert(all.take(all.len() as int) =~= all);
    out.insert(0, path);
    assert(out@ =~= seq![path] + other_paths(all, path));
    out.truncate(MAX_RECENT_FILES);
    out
}

/// A line of the settings has a name and a value with an equals sign between them, and white space
/// around either does not matter. The name `filter_placement` gives the filter panel the place
/// that the value names; no other name does.
pub proof fn placements_are_named(name: Seq<char>, value: Seq<char>)
    requires
        !name.contains('='),
    ensures
        ({
            let given = placement_of_line(name + seq!['='] + value);
            let named = text::trim(name) == "filter_placement"@;
            &&& given == Some(DockPlacement::Left) <==> named && text::trim(value) == "left"@
            &&& given == Some(DockPlacement::Right) <==> named && text::trim(value) == "right"@
            &&& given == Some(DockPlacement::Bottom) <==> named && text::trim(value) == "bottom"@
            &&& given matches Some(place) ==> place == DockPlacement::Left || place
                == DockPlacement::Right || place == DockPlacement::Bottom
        }),
        placement_of_line(name) is None,
{
    let line = name + seq!['='] + value;
    text::splitting_once_cuts_at_the_first_mark(line, '=');
    text::splitting_once_cuts_at_the_first_mark(name, '=');
    assert(line[name.len() as int] == '=');
    assert(line.contains('='));
    line.index_of_first_ensures('=');
    let i = line.index_of_first('=').unwrap();
    assert(i == name.len()) by {
        if i < name.len() {
            assert(name[i] == '=');
        }
    }
    assert(line.take(i) =~= name);
    assert(line.skip(i + 1) =~= value);
    reveal_strlit("left");
    reveal_strlit("right");
    reveal_strlit("bottom");
    assert("left"@.len() != "right"@.len());
    assert("left"@.len() != "bottom"@.len());
    assert("right"@.len() != "bottom"@.len());
}

/// The first line that gives the filter panel a place decides.
pub proof fn the_first_placement_counts(lines: Seq<Seq<char>>, i: int)
    requires
        0 <= i <= lines.len(),
        forall|k: int| 0 <= k < i ==> placement_of_line(#[trigger] lines[k]) is None,
        i < lines.len() ==> placement_of_line(lines[i]) is Some,
    ensures
        placement_of_lines(lines) == if i < lines.len() {
            placement_of_line(lines[i])
        } else {
            None
        },
    decreases lines.len(),
{
    if i > 0 {
        let rest = lines.skip(1);
        assert(placement_of_line(lines[0]) is None);
        assert forall|k: int| 0 <= k < i - 1 implies placement_of_line(
            #[trigger] rest[k],
        ) is None by {
            assert(rest[k] == lines[k + 1]);
        }
        the_first_placement_counts(rest, i - 1);
    }
}

/// A stored theme is the name that was stored, without white space around it. The words `light`
/// and `dark`, in letters of any size, stand for the default themes, and nothing for none.
pub proof fn themes_are_stored_by_name(contents: Seq<char>)
    ensures
        stored_theme(contents) == {
            let name = text::trim(contents);
            if name.len() == 0 {
                None
            } else if text::lower(name) == "light"@ {
                Some("Default Light"@)
            } else if text::lower(name) == "dark"@ {
                Some("Default Dark"@)
            } else {
                Some(name)
            }
        },
{
}

/// Of the stored searches those are kept, trimmed and in their order, that are not blank and not
/// there yet, until there are twenty; none of them is left out while there is room.
pub proof fn searches_are_kept_while_there_is_room(items: Seq<Seq<char>>, next: Seq<char>)
    ensures
        ({
            let kept = normal_history(items);
            &&& normal_history(Seq::<Seq<char>>::empty()).len() == 0
            &&& normal_history(items.push(next)) == if kept.len() < 20 && text::trim(next).len() > 0
                && !kept.contains(text::trim(next)) {
                kept.push(text::trim(next))
            } else {
                kept
            }
            &&& forall|k: int|
                0 <= k < kept.len() ==> exists|i: int|
                    0 <= i < items.len() && text::trim(#[trigger] items[i])
                        == #[trigger] kept[k]
            &&& kept.len() < 20 ==> forall|i: int|
                0 <= i < items.len() && text::trim(#[trigger] items[i]).len() > 0 ==> kept.contains(
                    text::trim(items[i]),
                )
        }),
    decreases items.len(),
{
    assert(items.push(next).drop_last() =~= items);
    let kept = normal_history(items);
    if items.len() > 0 {
        let rest = items.drop_last();
        let last = items.last();
        let before = normal_history(rest);
        searches_are_kept_while_there_is_room(rest, last);
        assert forall|k: int| 0 <= k < kept.len() implies exists|i: int|
            0 <= i < items.len() && text::trim(#[trigger] items[i]) == #[trigger] kept[k] by {
            if k < before.len() {
                assert(kept[k] == before[k]);
                let i = choose|i: int|
                    0 <= i < rest.len() && text::trim(#[trigger] rest[i]) == before[k];
                assert(text::trim(items[i]) == kept[k]);
            } else {
                assert(text::trim(items[items.len() - 1]) == kept[k]);
            }
        }
        if kept.len() < 20 {
            assert forall|i: int|
                0 <= i < items.len() && text::trim(#[trigger] items[i]).len() > 0 implies
                kept.contains(text::trim(items[i])) by {
                if i < rest.len() {
                    assert(text::trim(rest[i]).len() > 0);
                    assert(before.contains(text::trim(rest[i])));
                    let k = choose|k: int| 0 <= k < before.len() && before[k] == text::trim(rest[i]);
                    assert(kept[k] == text::trim(items[i]));
                } else if !before.contains(text::trim(last)) {
                    assert(kept[before.len() as int] == text::trim(items[i]));
                }
            }
        }
    }
}

/// Of the stored files those are kept, in their order, that have a name and are not equal to one
/// that is there, until there are ten.
pub proof fn files_are_kept_while_there_is_room<P: PartialEq + From<String>>(
    items: Seq<String>,
    next: String,
)
    ensures
        ({
            let kept = normal_paths::<P>(items);
            let path = P::from_spec(next);
            &&& normal_paths::<P>(Seq::<String>::empty()).len() == 0
            &&& normal_paths::<P>(items.push(next)) == if kept.len() < 10 && next@.len() > 0 && !(
            exists|i: int| 0 <= i < kept.len() && (#[trigger] kept[i]).eq_spec(&path)) {
                kept.push(path)
            } else {
                kept
            }
        }),
{
    assert(items.push(next).drop_last() =~= items);
}

/// A file that is remembered stands first, and behind it the others that are not equal to it, in
/// their order, ten in all at most.
pub proof fn remembered_files_stand_first<P: PartialEq>(paths: Seq<P>, path: P)
    ensures
        other_paths(paths, path) == paths.filter(|other: P| !other.eq_spec(&path)),
        ({
            let all = seq![path] + paths.filter(|other: P| !other.eq_spec(&path));
            remembered_paths(paths, path) == all.take(
                if all.len() <= 10 {
                    all.len() as int
                } else {
                    10
                },
            )
        }),
    decreases paths.len(),
{
    reveal(Seq::filter);
    if paths.len() > 0 {
        remembered_files_stand_first(paths.drop_last(), path);
    }
    assert(other_paths(paths, path) =~= paths.filter(|other: P| !other.eq_spec(&path)));
    let all = seq![path] + paths.filter(|other: P| !other.eq_spec(&path));
    assert(all.take(all.len() as int) =~= all);
}

} // verus!
