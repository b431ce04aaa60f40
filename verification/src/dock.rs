//! The panels around the log, and what stands above them.

use crate::i18n::{Key, Language};
use crate::layout;
use crate::layout::{PanelKind, PanelNode};
use crate::text;
use vstd::prelude::*;

verus! {

/// The name of the panel that shows the active log.
pub const WORKSPACE_PANEL: &'static str = "logd.workspace";

/// The name of the panel of filters.
pub const FILTER_PANEL: &'static str = "logd.filters";

/// The name of the panel of matches over all files.
pub const SEARCH_RESULTS_PANEL: &'static str = "logd.search-results";

/// The name of the panel of extracted tables.
pub const REGEX_TABLE_PANEL: &'static str = "logd.regex-table";

/// The name of the panel of marked lines.
pub const MARK_PANEL: &'static str = "logd.marks";

/// The version of the saved arrangement. An arrangement of another version is not restored.
pub const DOCK_LAYOUT_VERSION: usize = 7;

/// The name of a panel.
pub open spec fn name_of(kind: PanelKind) -> Seq<char> {
    match kind {
        PanelKind::Workspace => WORKSPACE_PANEL@,
        PanelKind::Filters => FILTER_PANEL@,
        PanelKind::Marks => MARK_PANEL@,
        PanelKind::SearchResults => SEARCH_RESULTS_PANEL@,
        PanelKind::RegexTable => REGEX_TABLE_PANEL@,
    }
}

/// The name of a panel.
pub fn panel_name(kind: PanelKind) -> (r: &'static str)
    ensures
        r@ == name_of(kind),
{
    match kind {
        PanelKind::Workspace => WORKSPACE_PANEL,
        PanelKind::Filters => FILTER_PANEL,
        PanelKind::Marks => MARK_PANEL,
        PanelKind::SearchResults => SEARCH_RESULTS_PANEL,
        PanelKind::RegexTable => REGEX_TABLE_PANEL,
    }
}

/// No two panels have the same name.
pub proof fn panel_names_differ(a: PanelKind, b: PanelKind)
    requires
        name_of(a) == name_of(b),
    ensures
        a == b,
{
    reveal_strlit("logd.workspace");
    reveal_strlit("logd.filters");
    reveal_strlit("logd.search-results");
    reveal_strlit("logd.regex-table");
    reveal_strlit("logd.marks");
    let x = name_of(a);
    let y = name_of(b);
    assert(x.len() == y.len());
    assert(x.len() > 5 && x[5] == y[5]);
}

/// The panel with a name.
pub fn panel_of_name(name: &str) -> (r: Option<PanelKind>)
    ensures
        match r {
            Some(kind) => name@ == name_of(kind),
            None => forall|kind: PanelKind| name@ != #[trigger] name_of(kind),
        },
{
    if text::same_text(name, WORKSPACE_PANEL) {
        Some(PanelKind::Workspace)
    } else if text::same_text(name, FILTER_PANEL) {
        Some(PanelKind::Filters)
    } else if text::same_text(name, MARK_PANEL) {
        Some(PanelKind::Marks)
    } else if text::same_text(name, SEARCH_RESULTS_PANEL) {
        Some(PanelKind::SearchResults)
    } else if text::same_text(name, REGEX_TABLE_PANEL) {
        Some(PanelKind::RegexTable)
    } else {
        None
    }
}

/// What stands above a group of panels.
#[derive(Clone, Copy, Debug, PartialEq, Eq, Structural)]
pub enum TabBar {
    /// Nothing: the log needs no heading.
    Nothing,
    /// The heading of the tool panel at a place in the group.
    ToolTitle(usize),
    /// One tab per panel.
    Tabs,
}

/// A panel in a group: its name, and whether it is shown.
pub struct GroupPanel {
    pub name: String,
    pub visible: bool,
}

/// The places of those of the first `count` panels that are shown.
pub open spec fn shown_places(group: Seq<GroupPanel>, count: nat) -> Seq<int>
    decreases count,
{
    if count == 0 {
        Seq::empty()
    } else if group[count - 1].visible {
        shown_places(group, (count - 1) as nat).push(count - 1)
    } else {
        shown_places(group, (count - 1) as nat)
    }
}

/// A name of a tool panel: any panel but the log.
pub open spec fn is_tool_name(name: Seq<char>) -> bool {
    name == FILTER_PANEL@ || name == MARK_PANEL@ || name == SEARCH_RESULTS_PANEL@ || name
        == REGEX_TABLE_PANEL@
}

/// What stands above a group of panels: where just one of them is shown, its heading, or
/// nothing for the log; otherwise tabs.
pub open spec fn bar_of(group: Seq<GroupPanel>) -> TabBar {
    let shown = shown_places(group, group.len());
    if shown.len() != 1 {
        TabBar::Tabs
    } else {
        let name = group[shown[0]].name@;
        if name == WORKSPACE_PANEL@ {
            TabBar::Nothing
        } else if is_tool_name(name) {
            TabBar::ToolTitle(shown[0] as usize)
        } else {
            TabBar::Tabs
        }
    }
}

proof fn lemma_shown_places(group: Seq<GroupPanel>, count: nat)
    requires
        count <= group.len(),
    ensures
        shown_places(group, count).len() <= count,
        forall|k: int|
            0 <= k < shown_places(group, count).len() ==> 0 <= #[trigger] shown_places(
                group,
                count,
            )[k] < count,
    decreases count,
{
    if count > 0 {
        lemma_shown_places(group, (count - 1) as nat);
        let before = shown_places(group, (count - 1) as nat);
        let all = shown_places(group, count);
        assert forall|k: int| 0 <= k < all.len() implies 0 <= #[trigger] all[k] < count by {
            if k < before.len() {
                assert(before[k] == all[k]);
            }
        }
    }
}

/// What stands above a group of panels.
pub fn render_tab_bar(group: &Vec<GroupPanel>) -> (r: TabBar)
    ensures
        r == bar_of(group@),
{
    let mut shown: usize = 0;
    let mut place: usize = 0;
    let mut i: usize = 0;
    while i < group.len()
        invariant
            i <= group@.len(),
            shown <= i,
            shown == shown_places(group@, i as nat).len(),
            shown > 0 ==> place == shown_places(group@, i as nat).last() && place < i,
        decreases group@.len() - i,
    {
        if group[i].visible {
            shown += 1;
            place = i;
        }
        i += 1;
    }
    proof {
        lemma_shown_places(group@, group@.len());
    }
    if shown != 1 {
        return TabBar::Tabs;
    }
    let name = group[place].name.as_str();
    if text::same_text(name, WORKSPACE_PANEL) {
        TabBar::Nothing
    } else if text::same_text(name, FILTER_PANEL) || text::same_text(name, MARK_PANEL)
        || text::same_text(name, SEARCH_RESULTS_PANEL) || text::same_text(
        name,
        REGEX_TABLE_PANEL,
    ) {
        TabBar::ToolTitle(place)
    } else {
        TabBar::Tabs
    }
}

/// What the button says that makes a panel large or small again.
pub fn zoom_label(zoomed: bool) -> (r: Key)
    ensures
        r == if zoomed {
            Key::Restore
        } else {
            Key::Maximize
        },
{
    if zoomed {
        Key::Restore
    } else {
        Key::Maximize
    }
}

/// The language of a panel: that of the application, or English where that is gone.
pub fn panel_language(app: Option<Language>) -> (r: Language)
    ensures
        r == match app {
            Some(language) => language,
            None => Language::EnUs,
        },
{
    match app {
        Some(language) => language,
        None => Language::EnUs,
    }
}

/// The panel that shows the active log. It is always there.
pub struct LogPanel {}

impl LogPanel {
    /// The panel.
    pub fn new() -> (r: LogPanel)
        ensures
            r.panel() == PanelKind::Workspace,
    {
        LogPanel {  }
    }

    /// Which panel it is.
    pub open spec fn panel(&self) -> PanelKind {
        PanelKind::Workspace
    }

    /// Its name.
    pub fn panel_name(&self) -> (r: &'static str)
        ensures
            r@ == name_of(self.panel()),
    {
        WORKSPACE_PANEL
    }
}

/// The panel of filters.
pub struct FilterPanel {
    pub visible: bool,
}

impl FilterPanel {
    /// A panel that is shown.
    pub fn new() -> (r: FilterPanel)
        ensures
            r.visible,
    {
        FilterPanel { visible: true }
    }

    /// Whether the panel is shown.
    pub fn visible(&self) -> (r: bool)
        ensures
            r == self.visible,
    {
        self.visible
    }

    /// Shows or hides the panel. Says whether that is new.
    pub fn set_visible(&mut self, visible: bool) -> (changed: bool)
        ensures
            changed == (old(self).visible != visible),
            final(self).visible == visible,
    {
        let changed = self.visible != visible;
        self.visible = visible;
        changed
    }
}

/// Takes over from a saved state whether a panel is shown, if the state says so.
pub fn restored_or(node: &PanelNode, visible: bool) -> (r: bool)
    ensures
        r == match layout::saved_visibility(node@) {
            Some(shown) => shown,
            None => visible,
        },
{
    match layout::restored_visibility(node) {
        Some(shown) => shown,
        None => visible,
    }
}

/// The panels that a group shows are those that are visible, in their order.
pub proof fn visible_panels_are_shown(group: Seq<GroupPanel>, count: nat)
    requires
        count <= group.len(),
    ensures
        shown_places(group, count) == Seq::new(count, |i: int| i).filter(
            |i: int| group[i].visible,
        ),
    decreases count,
{
    reveal(Seq::filter);
    let places = Seq::new(count, |i: int| i);
    if count > 0 {
        visible_panels_are_shown(group, (count - 1) as nat);
        assert(places.drop_last() =~= Seq::new((count - 1) as nat, |i: int| i));
        assert(places.last() == count - 1);
    }
    assert(shown_places(group, count) =~= places.filter(|i: int| group[i].visible));
}

/// A group shows tabs unless exactly one of its panels is visible and that panel is the workspace,
/// which has no bar, or a tool, whose title stands in place of the tabs.
pub proof fn a_single_tool_has_a_title(group: Seq<GroupPanel>, place: int)
    requires
        0 <= place < group.len() <= usize::MAX,
        group[place].visible,
        forall|k: int| 0 <= k < group.len() && k != place ==> !(#[trigger] group[k]).visible,
    ensures
        group[place].name@ == WORKSPACE_PANEL@ ==> bar_of(group) == TabBar::Nothing,
        group[place].name@ != WORKSPACE_PANEL@ && (group[place].name@ == FILTER_PANEL@
            || group[place].name@ == MARK_PANEL@ || group[place].name@ == SEARCH_RESULTS_PANEL@
            || group[place].name@ == REGEX_TABLE_PANEL@) ==> bar_of(group) == TabBar::ToolTitle(
            place as usize,
        ),
        group[place].name@ != WORKSPACE_PANEL@ && group[place].name@ != FILTER_PANEL@
            && group[place].name@ != MARK_PANEL@ && group[place].name@ != SEARCH_RESULTS_PANEL@
            && group[place].name@ != REGEX_TABLE_PANEL@ ==> bar_of(group) == TabBar::Tabs,
{
    lemma_single_place(group, place, group.len());
}

proof fn lemma_single_place(group: Seq<GroupPanel>, place: int, count: nat)
    requires
        0 <= place < group.len(),
        count <= group.len(),
        group[place].visible,
        forall|k: int| 0 <= k < group.len() && k != place ==> !(#[trigger] group[k]).visible,
    ensures
        shown_places(group, count) == if place < count {
            seq![place]
        } else {
            Seq::<int>::empty()
        },
    decreases count,
{
    if count > 0 {
        lemma_single_place(group, place, (count - 1) as nat);
        assert(Seq::<int>::empty().push(place) =~= seq![place]);
    }
}

} // verus!
