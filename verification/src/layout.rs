//! Where the panels stand: the default arrangement, and the order of hidden panels
//! in a saved one.

use crate::text;
use vstd::prelude::*;

verus! {

/// A side of the window.
#[derive(Clone, Copy, Debug, PartialEq, Eq, Structural)]
pub enum DockPlacement {
    Center,
    Left,
    Bottom,
    Right,
}

/// The panels of the window.
#[derive(Clone, Copy, Debug, PartialEq, Eq, Structural)]
pub enum PanelKind {
    Workspace,
    Filters,
    Marks,
    SearchResults,
    RegexTable,
}

/// An arrangement of panels: one panel, or two arrangements side by side (or one above the
/// other), each perhaps with a size in pixels.
#[derive(Debug)]
pub enum DockTree {
    Panel(PanelKind),
    Split {
        vertical: bool,
        first: Box<DockTree>,
        first_size: Option<u32>,
        second: Box<DockTree>,
        second_size: Option<u32>,
    },
}

/// The panels of an arrangement in order.
pub open spec fn panels(tree: DockTree) -> Seq<PanelKind>
    decreases tree,
{
    match tree {
        DockTree::Panel(kind) => seq![kind],
        DockTree::Split { vertical, first, first_size, second, second_size } => panels(*first)
            + panels(*second),
    }
}

/// A split in two.
pub open spec fn split(
    vertical: bool,
    first: DockTree,
    first_size: Option<u32>,
    second: DockTree,
    second_size: Option<u32>,
) -> DockTree {
    DockTree::Split {
        vertical,
        first: Box::new(first),
        first_size,
        second: Box::new(second),
        second_size,
    }
}

/// The extracted table above the marks.
pub open spec fn table_above_marks() -> DockTree {
    split(
        true,
        DockTree::Panel(PanelKind::RegexTable),
        Some(200),
        DockTree::Panel(PanelKind::Marks),
        Some(200),
    )
}

/// The search results above the table and the marks.
pub open spec fn tools(results_size: Option<u32>) -> DockTree {
    split(
        true,
        DockTree::Panel(PanelKind::SearchResults),
        results_size,
        table_above_marks(),
        None,
    )
}

/// The log above the tools.
pub open spec fn log_above_tools() -> DockTree {
    split(true, DockTree::Panel(PanelKind::Workspace), None, tools(Some(200)), Some(520))
}

/// The arrangement that the window starts with, by the side on which the filters stand.
pub open spec fn default_layout(filters: DockPlacement) -> DockTree {
    match filters {
        DockPlacement::Left => split(
            false,
            DockTree::Panel(PanelKind::Filters),
            Some(360),
            log_above_tools(),
            None,
        ),
        DockPlacement::Bottom => split(
            true,
            DockTree::Panel(PanelKind::Workspace),
            None,
            split(false, tools(None), None, DockTree::Panel(PanelKind::Filters), Some(360)),
            Some(240),
        ),
        _ => split(
            false,
            log_above_tools(),
            None,
            DockTree::Panel(PanelKind::Filters),
            Some(360),
        ),
    }
}

fn make_split(
    vertical: bool,
    first: DockTree,
    first_size: Option<u32>,
    second: DockTree,
    second_size: Option<u32>,
) -> (r: DockTree)
    ensures
        r == split(vertical, first, first_size, second, second_size),
{
    DockTree::Split {
        vertical,
        first: Box::new(first),
        first_size,
        second: Box::new(second),
        second_size,
    }
}

fn make_tools(results_size: Option<u32>) -> (r: DockTree)
    ensures
        r == tools(results_size),
{
    let below = make_split(
        true,
        DockTree::Panel(PanelKind::RegexTable),
        Some(200),
        DockTree::Panel(PanelKind::Marks),
        Some(200),
    );
    make_split(true, DockTree::Panel(PanelKind::SearchResults), results_size, below, None)
}

fn make_log_above_tools() -> (r: DockTree)
    ensures
        r == log_above_tools(),
{
    make_split(
        true,
        DockTree::Panel(PanelKind::Workspace),
        None,
        make_tools(Some(200)),
        Some(520),
    )
}

/// The arrangement that the window starts with. One tree of splits keeps every tool panel
/// movable: an outer dock would hold on to its last visible panel.
pub fn default_dock_layout(filters: DockPlacement) -> (r: DockTree)
    ensures
        r == default_layout(filters),
{
    match filters {
        DockPlacement::Left => make_split(
            false,
            DockTree::Panel(PanelKind::Filters),
            Some(360),
            make_log_above_tools(),
            None,
        ),
        DockPlacement::Bottom => make_split(
            true,
            DockTree::Panel(PanelKind::Workspace),
            None,
            make_split(
                false,
                make_tools(None),
                None,
                DockTree::Panel(PanelKind::Filters),
                Some(360),
            ),
            Some(240),
        ),
        _ => make_split(
            false,
            make_log_above_tools(),
            None,
            DockTree::Panel(PanelKind::Filters),
            Some(360),
        ),
    }
}

proof fn lemma_panels_of_split(
    vertical: bool,
    first: DockTree,
    first_size: Option<u32>,
    second: DockTree,
    second_size: Option<u32>,
)
    ensures
        panels(split(vertical, first, first_size, second, second_size)) == panels(first) + panels(
            second,
        ),
{
}

proof fn lemma_panels_of_tools(results_size: Option<u32>)
    ensures
        panels(tools(results_size)) == seq![
            PanelKind::SearchResults,
            PanelKind::RegexTable,
            PanelKind::Marks,
        ],
{
    let results = DockTree::Panel(PanelKind::SearchResults);
    let table = DockTree::Panel(PanelKind::RegexTable);
    let marks = DockTree::Panel(PanelKind::Marks);
    lemma_panels_of_split(true, results, results_size, table_above_marks(), None);
    lemma_panels_of_split(true, table, Some(200), marks, Some(200));
    assert(panels(tools(results_size)) =~= seq![
        PanelKind::SearchResults,
        PanelKind::RegexTable,
        PanelKind::Marks,
    ]);
}

proof fn lemma_panels_of_log_above_tools()
    ensures
        panels(log_above_tools()) == seq![
            PanelKind::Workspace,
            PanelKind::SearchResults,
            PanelKind::RegexTable,
            PanelKind::Marks,
        ],
{
    let log = DockTree::Panel(PanelKind::Workspace);
    lemma_panels_of_tools(Some(200));
    lemma_panels_of_split(true, log, None, tools(Some(200)), Some(520));
    assert(panels(log_above_tools()) =~= seq![
        PanelKind::Workspace,
        PanelKind::SearchResults,
        PanelKind::RegexTable,
        PanelKind::Marks,
    ]);
}

/// The default arrangement holds every panel exactly once.
pub proof fn default_layout_holds_each_panel_once(filters: DockPlacement, kind: PanelKind)
    ensures
        panels(default_layout(filters)).contains(kind),
        panels(default_layout(filters)).no_duplicates(),
{
    let all = panels(default_layout(filters));
    let log = DockTree::Panel(PanelKind::Workspace);
    let list = DockTree::Panel(PanelKind::Filters);
    lemma_panels_of_log_above_tools();
    lemma_panels_of_tools(None);
    match filters {
        DockPlacement::Left => {
            lemma_panels_of_split(false, list, Some(360), log_above_tools(), None);
            assert(all =~= seq![
                PanelKind::Filters,
                PanelKind::Workspace,
                PanelKind::SearchResults,
                PanelKind::RegexTable,
                PanelKind::Marks,
            ]);
        },
        DockPlacement::Bottom => {
            let below = split(false, tools(None), None, list, Some(360));
            lemma_panels_of_split(true, log, None, below, Some(240));
            lemma_panels_of_split(false, tools(None), None, list, Some(360));
            assert(all =~= seq![
                PanelKind::Workspace,
                PanelKind::SearchResults,
                PanelKind::RegexTable,
                PanelKind::Marks,
                PanelKind::Filters,
            ]);
        },
        _ => {
            lemma_panels_of_split(false, log_above_tools(), None, list, Some(360));
            assert(all =~= seq![
                PanelKind::Workspace,
                PanelKind::SearchResults,
                PanelKind::RegexTable,
                PanelKind::Marks,
                PanelKind::Filters,
            ]);
        },
    }
    assert(all[0] == kind || all[1] == kind || all[2] == kind || all[3] == kind || all[4] == kind);
}

/// A node of a saved arrangement: its children, and what is known of it. A stack keeps one
/// size per child; a panel may say whether it is shown. `id` finds the rest of the node again.
#[derive(Debug)]
pub struct PanelNode {
    pub id: u64,
    pub children: Vec<PanelNode>,
    pub stack_sizes: Option<Vec<String>>,
    pub panel: Option<Option<bool>>,
}

/// What a node holds.
#[verifier::ext_equal]
pub struct NodeView {
    pub id: u64,
    pub children: Seq<NodeView>,
    pub stack_sizes: Option<Seq<Seq<char>>>,
    pub panel: Option<Option<bool>>,
}

/// What a node holds.
pub open spec fn node_view(node: PanelNode) -> NodeView
    decreases node, 0nat,
{
    NodeView {
        id: node.id,
        children: node_views(node.children@, node.children@.len()),
        stack_sizes: match node.stack_sizes {
            Some(sizes) => Some(text::texts(sizes@)),
            None => None,
        },
        panel: node.panel,
    }
}

/// What the first `count` nodes hold.
pub open spec fn node_views(nodes: Seq<PanelNode>, count: nat) -> Seq<NodeView>
    decreases nodes, count,
{
    if count == 0 || count > nodes.len() {
        Seq::empty()
    } else {
        node_views(nodes, (count - 1) as nat).push(node_view(nodes[count - 1]))
    }
}

impl View for PanelNode {
    type V = NodeView;

    open spec fn view(&self) -> NodeView {
        node_view(*self)
    }
}

/// Whether something of a node is shown: a panel unless it says otherwise, anything else if
/// something of a child is.
pub open spec fn visible(node: NodeView) -> bool
    decreases node, 0nat,
{
    match node.panel {
        Some(Some(shown)) => shown,
        Some(None) => true,
        None => any_visible(node.children, node.children.len()),
    }
}

/// Whether something of the first `count` nodes is shown.
pub open spec fn any_visible(nodes: Seq<NodeView>, count: nat) -> bool
    decreases nodes, count,
{
    if count == 0 || count > nodes.len() {
        false
    } else {
        any_visible(nodes, (count - 1) as nat) || visible(nodes[count - 1])
    }
}

/// The items whose flag is `wanted`.
pub open spec fn chosen<T>(items: Seq<T>, flags: Seq<bool>, wanted: bool) -> Seq<T>
    decreases items.len(),
{
    if items.len() == 0 {
        Seq::empty()
    } else {
        let before = chosen(items.drop_last(), flags, wanted);
        if flags[items.len() - 1] == wanted {
            before.push(items.last())
        } else {
            before
        }
    }
}

/// The items whose flag is set, and behind them the others.
pub open spec fn set_first<T>(items: Seq<T>, flags: Seq<bool>) -> Seq<T> {
    chosen(items, flags, true) + chosen(items, flags, false)
}

/// For each node whether something of it is shown.
pub open spec fn shown(nodes: Seq<NodeView>) -> Seq<bool> {
    nodes.map_values(|node: NodeView| visible(node))
}

/// A node with these children; a stack with a size for each has the hidden ones last.
pub open spec fn with_hidden_last(node: NodeView, children: Seq<NodeView>) -> NodeView {
    match node.stack_sizes {
        Some(sizes) => if sizes.len() == children.len() {
            NodeView {
                children: set_first(children, shown(children)),
                stack_sizes: Some(set_first(sizes, shown(children))),
                ..node
            }
        } else {
            NodeView { children, ..node }
        },
        None => NodeView { children, ..node },
    }
}

/// A node in which every stack has its hidden children last.
pub open spec fn normal(node: NodeView) -> NodeView
    decreases node, 0nat,
{
    with_hidden_last(node, normal_list(node.children, node.children.len()))
}

/// The first `count` nodes, each with its hidden children last.
pub open spec fn normal_list(nodes: Seq<NodeView>, count: nat) -> Seq<NodeView>
    decreases nodes, count,
{
    if count == 0 || count > nodes.len() {
        Seq::empty()
    } else {
        normal_list(nodes, (count - 1) as nat).push(normal(nodes[count - 1]))
    }
}

/// Some children of a stack with a size for each are shown and some are not.
pub open spec fn mixed(node: NodeView, children: Seq<NodeView>) -> bool {
    &&& node.stack_sizes matches Some(sizes)
    &&& sizes.len() == children.len()
    &&& shown(children).contains(true)
    &&& shown(children).contains(false)
}

/// Somewhere in a node a stack has children of both kinds.
pub open spec fn has_mixed(node: NodeView) -> bool
    decreases node, 0nat,
{
    has_mixed_list(node.children, node.children.len()) || mixed(
        node,
        normal_list(node.children, node.children.len()),
    )
}

/// Somewhere in the first `count` nodes a stack has children of both kinds.
pub open spec fn has_mixed_list(nodes: Seq<NodeView>, count: nat) -> bool
    decreases nodes, count,
{
    if count == 0 || count > nodes.len() {
        false
    } else {
        has_mixed_list(nodes, (count - 1) as nat) || has_mixed(nodes[count - 1])
    }
}

/// Whether something of a node is shown.
pub fn panel_state_visible(node: &PanelNode) -> (r: bool)
    ensures
        r == visible(node@),
    decreases node,
{
    match node.panel {
        Some(Some(shown)) => shown,
        Some(None) => true,
        None => {
            let ghost views = node_views(node.children@, node.children@.len());
            proof {
                lemma_node_views(node.children@, node.children@.len());
            }
            let mut i: usize = 0;
            while i < node.children.len()
                invariant
                    i <= node.children@.len(),
                    node.panel is None,
                    views == node_views(node.children@, node.children@.len()),
                    views.len() == node.children@.len(),
                    forall|k: int|
                        0 <= k < views.len() ==> #[trigger] views[k] == node_view(node.children@[k]),
                    !any_visible(views, i as nat),
                decreases node.children@.len() - i,
            {
                assert(views[i as int] == node_view(node.children@[i as int]));
                if panel_state_visible(&node.children[i]) {
                    proof {
                        lemma_any_visible(views, i as int, views.len());
                    }
                    return true;
                }
                i += 1;
            }
            false
        },
    }
}

proof fn lemma_node_views(nodes: Seq<PanelNode>, count: nat)
    requires
        count <= nodes.len(),
    ensures
        node_views(nodes, count).len() == count,
        forall|k: int|
            0 <= k < count ==> #[trigger] node_views(nodes, count)[k] == node_view(nodes[k]),
    decreases count,
{
    if count > 0 {
        lemma_node_views(nodes, (count - 1) as nat);
    }
}

proof fn lemma_any_visible(nodes: Seq<NodeView>, i: int, count: nat)
    requires
        0 <= i < count <= nodes.len(),
        visible(nodes[i]),
    ensures
        any_visible(nodes, count),
    decreases count,
{
    if i < count - 1 {
        lemma_any_visible(nodes, i, (count - 1) as nat);
    }
}

proof fn lemma_normal_list(nodes: Seq<NodeView>, count: nat)
    requires
        count <= nodes.len(),
    ensures
        normal_list(nodes, count).len() == count,
        forall|k: int| 0 <= k < count ==> #[trigger] normal_list(nodes, count)[k] == normal(nodes[k]),
    decreases count,
{
    if count > 0 {
        lemma_normal_list(nodes, (count - 1) as nat);
    }
}

proof fn lemma_node_views_push(nodes: Seq<PanelNode>, node: PanelNode)
    ensures
        node_views(nodes.push(node), nodes.len() + 1) == node_views(nodes, nodes.len()).push(
            node_view(node),
        ),
{
    lemma_node_views(nodes, nodes.len());
    lemma_node_views(nodes.push(node), nodes.len() + 1);
    assert(node_views(nodes.push(node), nodes.len() + 1) =~= node_views(nodes, nodes.len()).push(
        node_view(node),
    ));
}

proof fn lemma_node_views_join(a: Seq<PanelNode>, b: Seq<PanelNode>)
    ensures
        node_views(a + b, a.len() + b.len()) == node_views(a, a.len()) + node_views(b, b.len()),
{
    lemma_node_views(a, a.len());
    lemma_node_views(b, b.len());
    lemma_node_views(a + b, a.len() + b.len());
    assert(node_views(a + b, a.len() + b.len()) =~= node_views(a, a.len()) + node_views(
        b,
        b.len(),
    ));
}

proof fn lemma_chosen_uniform<T>(items: Seq<T>, flags: Seq<bool>, value: bool)
    requires
        items.len() <= flags.len(),
        forall|k: int| 0 <= k < items.len() ==> flags[k] == value,
    ensures
        chosen(items, flags, value) == items,
        chosen(items, flags, !value) == Seq::<T>::empty(),
    decreases items.len(),
{
    if items.len() > 0 {
        lemma_chosen_uniform(items.drop_last(), flags, value);
        assert(items =~= items.drop_last().push(items.last()));
    } else {
        assert(chosen(items, flags, value) =~= items);
    }
}

/// Puts the hidden children of every stack behind those that are shown, each with its size,
/// and says whether some stack had children of both kinds. Resize handles go by the place of
/// a child, so a hidden child in the middle would take the handle of the next one.
pub fn normalize_hidden_stack_children(node: PanelNode) -> (r: (PanelNode, bool))
    ensures
        r.0@ == normal(node@),
        r.1 == has_mixed(node@),
    decreases node,
{
    let ghost whole = node;
    let ghost views = node_views(whole.children@, whole.children@.len());
    let ghost normals = normal_list(views, views.len());
    proof {
        lemma_node_views(whole.children@, whole.children@.len());
        lemma_normal_list(views, views.len());
    }
    let PanelNode { id, children, stack_sizes, panel } = node;
    let mut changed = false;
    let mut done: Vec<PanelNode> = Vec::new();
    let mut shows: Vec<bool> = Vec::new();
    let mut any_shown = false;
    let mut any_hidden = false;
    let ghost flags = shown(normals);
    for child in it: children
        invariant
            it.seq() == whole.children@,
            whole == node,
            views == node_views(whole.children@, whole.children@.len()),
            normals == normal_list(views, views.len()),
            flags == shown(normals),
            views.len() == whole.children@.len(),
            normals.len() == views.len(),
            forall|k: int|
                0 <= k < views.len() ==> #[trigger] views[k] == node_view(whole.children@[k]),
            forall|k: int| 0 <= k < normals.len() ==> #[trigger] normals[k] == normal(views[k]),
            done@.len() == it.index(),
            shows@.len() == it.index(),
            node_views(done@, done@.len()) == normals.take(it.index() as int),
            shows@ == flags.take(it.index() as int),
            any_shown == flags.take(it.index() as int).contains(true),
            any_hidden == flags.take(it.index() as int).contains(false),
            changed == has_mixed_list(views, it.index() as nat),
    {
        let ghost n = it.index() as int;
        assert(child == whole.children@[n]);
        assert(decreases_to!(whole => whole.children));
        assert(decreases_to!(whole.children => whole.children@));
        assert(decreases_to!(whole.children@ => whole.children@[n]));
        let (next, moved) = normalize_hidden_stack_children(child);
        assert(next@ == normals[n]);
        if moved {
            changed = true;
        }
        let is_shown = panel_state_visible(&next);
        assert(is_shown == flags[n]);
        assert(flags.take(n + 1) =~= flags.take(n).push(flags[n]));
        assert(forall|value: bool|
            flags.take(n + 1).contains(value) <==> flags.take(n).contains(value) || flags[n]
                == value) by {
            assert forall|value: bool|
                flags.take(n + 1).contains(value) <==> flags.take(n).contains(value) || flags[n]
                    == value by {
                if flags.take(n).contains(value) {
                    let k = choose|k: int| 0 <= k < n && flags.take(n)[k] == value;
                    assert(flags.take(n + 1)[k] == value);
                }
                if flags[n] == value {
                    assert(flags.take(n + 1)[n] == value);
                }
            }
        }
        if is_shown {
            any_shown = true;
        } else {
            any_hidden = true;
        }
        proof {
            lemma_node_views_push(done@, next);
        }
        assert(normals.take(n + 1) =~= normals.take(n).push(normals[n]));
        done.push(next);
        shows.push(is_shown);
    }
    assert(normals.take(normals.len() as int) =~= normals);
    assert(flags.take(flags.len() as int) =~= flags);
    let sizes = match stack_sizes {
        Some(sizes) => sizes,
        None => {
            return (PanelNode { id, children: done, stack_sizes: None, panel }, changed);
        },
    };
    if sizes.len() != done.len() {
        return (PanelNode { id, children: done, stack_sizes: Some(sizes), panel }, changed);
    }
    let ghost all_sizes = text::texts(sizes@);
    if !any_shown || !any_hidden {
        proof {
            let value = any_shown;
            assert forall|k: int| 0 <= k < flags.len() implies flags[k] == value by {
                assert(flags.contains(flags[k]));
            }
            lemma_chosen_uniform(normals, flags, value);
            lemma_chosen_uniform(all_sizes, flags, value);
            assert(set_first(normals, flags) =~= normals);
            assert(set_first(all_sizes, flags) =~= all_sizes);
        }
        return (PanelNode { id, children: done, stack_sizes: Some(sizes), panel }, changed);
    }
    let mut first: Vec<PanelNode> = Vec::new();
    let mut last: Vec<PanelNode> = Vec::new();
    let mut first_sizes: Vec<String> = Vec::new();
    let mut last_sizes: Vec<String> = Vec::new();
    let ghost nodes = done@;
    proof {
        lemma_node_views(nodes, nodes.len());
        assert(text::texts(first_sizes@) =~= chosen(all_sizes.take(0), flags, true));
        assert(text::texts(last_sizes@) =~= chosen(all_sizes.take(0), flags, false));
    }
    for child in it: done
        invariant
            it.seq() == nodes,
            nodes.len() == normals.len(),
            node_views(nodes, nodes.len()) == normals,
            forall|k: int| 0 <= k < nodes.len() ==> #[trigger] normals[k] == node_view(nodes[k]),
            flags.len() == normals.len(),
            shows@ == flags,
            sizes@.len() == normals.len(),
            normals.len() <= usize::MAX,
            all_sizes == text::texts(sizes@),
            node_views(first@, first@.len()) == chosen(
                normals.take(it.index() as int),
                flags,
                true,
            ),
            node_views(last@, last@.len()) == chosen(
                normals.take(it.index() as int),
                flags,
                false,
            ),
            text::texts(first_sizes@) == chosen(all_sizes.take(it.index() as int), flags, true),
            text::texts(last_sizes@) == chosen(all_sizes.take(it.index() as int), flags, false),
    {
        let ghost n = it.index() as int;
        assert(first@.len() + last@.len() == n) by {
            lemma_node_views(first@, first@.len());
            lemma_node_views(last@, last@.len());
            lemma_chosen_lengths(normals.take(n), flags);
        }
        let at: usize = first.len() + last.len();
        assert(normals.take(n + 1).drop_last() =~= normals.take(n));
        assert(all_sizes.take(n + 1).drop_last() =~= all_sizes.take(n));
        assert(all_sizes.take(n + 1).last() == sizes@[n]@);
        assert(normals.take(n + 1).last() == node_view(child));
        if shows[at] {
            proof {
                lemma_node_views_push(first@, child);
            }
            let ghost before = first_sizes@;
            first.push(child);
            first_sizes.push(sizes[at].clone());
            assert(text::texts(first_sizes@) =~= text::texts(before).push(sizes@[n]@));
        } else {
            proof {
                lemma_node_views_push(last@, child);
            }
            let ghost before = last_sizes@;
            last.push(child);
            last_sizes.push(sizes[at].clone());
            assert(text::texts(last_sizes@) =~= text::texts(before).push(sizes@[n]@));
        }
    }
    assert(all_sizes.take(all_sizes.len() as int) =~= all_sizes);
    proof {
        lemma_node_views_join(first@, last@);
    }
    let ghost a = first_sizes@;
    let ghost b = last_sizes@;
    first.append(&mut last);
    first_sizes.append(&mut last_sizes);
    assert(text::texts(first_sizes@) =~= text::texts(a) + text::texts(b));
    (PanelNode { id, children: first, stack_sizes: Some(first_sizes), panel }, true)
}

proof fn lemma_chosen_lengths<T>(items: Seq<T>, flags: Seq<bool>)
    ensures
        chosen(items, flags, true).len() + chosen(items, flags, false).len() == items.len(),
    decreases items.len(),
{
    if items.len() > 0 {
        lemma_chosen_lengths(items.drop_last(), flags);
    }
}

proof fn lemma_chosen_parts<T>(
    a: Seq<T>,
    b: Seq<T>,
    a_flags: Seq<bool>,
    b_flags: Seq<bool>,
    wanted: bool,
)
    requires
        a.len() == a_flags.len(),
        b.len() == b_flags.len(),
    ensures
        chosen(a + b, a_flags + b_flags, wanted) == chosen(a, a_flags, wanted) + chosen(
            b,
            b_flags,
            wanted,
        ),
    decreases b.len(),
{
    if b.len() == 0 {
        assert(a + b =~= a);
        assert(a_flags + b_flags =~= a_flags);
        assert(chosen(a, a_flags, wanted) + chosen(b, b_flags, wanted) =~= chosen(
            a,
            a_flags,
            wanted,
        ));
    } else {
        let rest = b.drop_last();
        let rest_flags = b_flags.drop_last();
        lemma_chosen_parts(a, rest, a_flags, rest_flags, wanted);
        assert((a + b).drop_last() =~= a + rest);
        lemma_chosen_by_prefix(a + rest, a_flags + b_flags, a_flags + rest_flags, wanted);
        lemma_chosen_by_prefix(rest, b_flags, rest_flags, wanted);
        assert(chosen(a + b, a_flags + b_flags, wanted) =~= chosen(a, a_flags, wanted) + chosen(
            b,
            b_flags,
            wanted,
        ));
    }
}

proof fn lemma_chosen_by_prefix<T>(
    items: Seq<T>,
    flags: Seq<bool>,
    other: Seq<bool>,
    wanted: bool,
)
    requires
        items.len() <= flags.len(),
        items.len() <= other.len(),
        forall|k: int| 0 <= k < items.len() ==> flags[k] == other[k],
    ensures
        chosen(items, flags, wanted) == chosen(items, other, wanted),
    decreases items.len(),
{
    if items.len() > 0 {
        lemma_chosen_by_prefix(items.drop_last(), flags, other, wanted);
    }
}

proof fn lemma_chosen_flags(items: Seq<bool>, flags: Seq<bool>, wanted: bool)
    requires
        items.len() <= flags.len(),
        forall|k: int| 0 <= k < items.len() ==> items[k] == flags[k],
    ensures
        forall|k: int|
            0 <= k < chosen(items, flags, wanted).len() ==> #[trigger] chosen(
                items,
                flags,
                wanted,
            )[k] == wanted,
    decreases items.len(),
{
    if items.len() > 0 {
        let rest = items.drop_last();
        lemma_chosen_flags(rest, flags, wanted);
        assert forall|k: int| 0 <= k < chosen(items, flags, wanted).len() implies #[trigger] chosen(
            items,
            flags,
            wanted,
        )[k] == wanted by {
            if k < chosen(rest, flags, wanted).len() {
                assert(chosen(rest, flags, wanted)[k] == wanted);
            }
        }
    }
}

proof fn lemma_chosen_same_length<A, B>(a: Seq<A>, b: Seq<B>, flags: Seq<bool>, wanted: bool)
    requires
        a.len() == b.len(),
    ensures
        chosen(a, flags, wanted).len() == chosen(b, flags, wanted).len(),
    decreases a.len(),
{
    if a.len() > 0 {
        lemma_chosen_same_length(a.drop_last(), b.drop_last(), flags, wanted);
    }
}

/// Setting apart what is already set apart changes nothing.
pub proof fn set_first_is_stable<T>(items: Seq<T>, flags: Seq<bool>)
    requires
        items.len() == flags.len(),
    ensures
        set_first(set_first(items, flags), set_first(flags, flags)) == set_first(items, flags),
{
    let a = chosen(items, flags, true);
    let b = chosen(items, flags, false);
    let fa = chosen(flags, flags, true);
    let fb = chosen(flags, flags, false);
    lemma_chosen_same_length(items, flags, flags, true);
    lemma_chosen_same_length(items, flags, flags, false);
    lemma_chosen_flags(flags, flags, true);
    lemma_chosen_flags(flags, flags, false);
    lemma_chosen_parts(a, b, fa, fb, true);
    lemma_chosen_parts(a, b, fa, fb, false);
    lemma_chosen_uniform(a, fa, true);
    lemma_chosen_uniform(b, fb, false);
    assert(set_first(set_first(items, flags), set_first(flags, flags)) =~= a + b);
}

/// Setting items apart loses none and adds none.
pub proof fn set_first_is_a_permutation<T>(items: Seq<T>, flags: Seq<bool>)
    ensures
        set_first(items, flags).to_multiset() =~= items.to_multiset(),
        set_first(items, flags).len() == items.len(),
    decreases items.len(),
{
    broadcast use vstd::seq_lib::group_to_multiset_ensures;

    if items.len() > 0 {
        let rest = items.drop_last();
        set_first_is_a_permutation(rest, flags);
        assert(items =~= rest.push(items.last()));
        let a = chosen(rest, flags, true);
        let b = chosen(rest, flags, false);
        vstd::seq_lib::lemma_multiset_commutative(a, b);
        if flags[items.len() - 1] {
            vstd::seq_lib::lemma_multiset_commutative(a.push(items.last()), b);
        } else {
            vstd::seq_lib::lemma_multiset_commutative(a, b.push(items.last()));
        }
    } else {
        assert(set_first(items, flags) =~= items);
    }
}

/// Children and sizes are set apart alike, so that each child keeps its size.
pub proof fn set_first_keeps_pairs<A, B>(a: Seq<A>, b: Seq<B>, flags: Seq<bool>)
    requires
        a.len() == b.len(),
    ensures
        set_first(a.zip_with(b), flags) == set_first(a, flags).zip_with(set_first(b, flags)),
{
    lemma_chosen_pairs(a, b, flags, true);
    lemma_chosen_pairs(a, b, flags, false);
    lemma_chosen_same_length(a, b, flags, true);
    lemma_chosen_same_length(a, b, flags, false);
    assert(set_first(a.zip_with(b), flags) =~= set_first(a, flags).zip_with(set_first(b, flags)));
}

proof fn lemma_chosen_pairs<A, B>(a: Seq<A>, b: Seq<B>, flags: Seq<bool>, wanted: bool)
    requires
        a.len() == b.len(),
    ensures
        chosen(a.zip_with(b), flags, wanted) == chosen(a, flags, wanted).zip_with(
            chosen(b, flags, wanted),
        ),
    decreases a.len(),
{
    lemma_chosen_same_length(a, b, flags, wanted);
    if a.len() > 0 {
        lemma_chosen_pairs(a.drop_last(), b.drop_last(), flags, wanted);
        lemma_chosen_same_length(a.drop_last(), b.drop_last(), flags, wanted);
        assert(a.zip_with(b).drop_last() =~= a.drop_last().zip_with(b.drop_last()));
    }
    assert(chosen(a.zip_with(b), flags, wanted) =~= chosen(a, flags, wanted).zip_with(
        chosen(b, flags, wanted),
    ));
}

proof fn lemma_chosen_elements<T>(items: Seq<T>, flags: Seq<bool>, wanted: bool)
    requires
        items.len() <= flags.len(),
    ensures
        forall|value: T| #[trigger]
            chosen(items, flags, wanted).contains(value) <==> exists|k: int|
                0 <= k < items.len() && #[trigger] items[k] == value && flags[k] == wanted,
    decreases items.len(),
{
    let all = chosen(items, flags, wanted);
    if items.len() > 0 {
        let rest = items.drop_last();
        lemma_chosen_elements(rest, flags, wanted);
        let before = chosen(rest, flags, wanted);
        assert forall|value: T| #[trigger]
            all.contains(value) <==> exists|k: int|
                0 <= k < items.len() && #[trigger] items[k] == value && flags[k] == wanted by {
            if all.contains(value) {
                let m = choose|m: int| 0 <= m < all.len() && all[m] == value;
                if m < before.len() {
                    assert(before[m] == value);
                    assert(before.contains(value));
                    let k = choose|k: int|
                        0 <= k < rest.len() && #[trigger] rest[k] == value && flags[k] == wanted;
                    assert(items[k] == value);
                } else {
                    assert(items[items.len() - 1] == value);
                }
            }
            if exists|k: int|
                0 <= k < items.len() && #[trigger] items[k] == value && flags[k] == wanted {
                let k = choose|k: int|
                    0 <= k < items.len() && #[trigger] items[k] == value && flags[k] == wanted;
                if k < rest.len() {
                    assert(rest[k] == value);
                    assert(before.contains(value));
                    let m = choose|m: int| 0 <= m < before.len() && before[m] == value;
                    assert(all[m] == value);
                } else {
                    assert(all[all.len() - 1] == value);
                }
            }
        }
    }
}

proof fn lemma_any_visible_iff(nodes: Seq<NodeView>, count: nat)
    requires
        count <= nodes.len(),
    ensures
        any_visible(nodes, count) <==> exists|k: int| 0 <= k < count && visible(#[trigger] nodes[k]),
    decreases count,
{
    if count > 0 {
        lemma_any_visible_iff(nodes, (count - 1) as nat);
        if exists|k: int| 0 <= k < count && visible(#[trigger] nodes[k]) {
            let k = choose|k: int| 0 <= k < count && visible(#[trigger] nodes[k]);
            if k == count - 1 {
            } else {
                assert(visible(nodes[k]));
            }
        }
        if visible(nodes[count - 1]) {
            assert(visible(nodes[count - 1]));
        }
    }
}

proof fn lemma_set_first_visible(nodes: Seq<NodeView>)
    ensures
        any_visible(set_first(nodes, shown(nodes)), nodes.len()) == any_visible(
            nodes,
            nodes.len(),
        ),
        set_first(nodes, shown(nodes)).len() == nodes.len(),
{
    let flags = shown(nodes);
    let all = set_first(nodes, flags);
    lemma_chosen_lengths(nodes, flags);
    lemma_any_visible_iff(nodes, nodes.len());
    lemma_any_visible_iff(all, all.len());
    lemma_chosen_elements(nodes, flags, true);
    lemma_chosen_elements(nodes, flags, false);
    let a = chosen(nodes, flags, true);
    let b = chosen(nodes, flags, false);
    if any_visible(nodes, nodes.len()) {
        let k = choose|k: int| 0 <= k < nodes.len() && visible(#[trigger] nodes[k]);
        assert(flags[k]);
        assert(a.contains(nodes[k]));
        let m = choose|m: int| 0 <= m < a.len() && a[m] == nodes[k];
        assert(all[m] == nodes[k]);
        assert(visible(all[m]));
    }
    if any_visible(all, all.len()) {
        let m = choose|m: int| 0 <= m < all.len() && visible(#[trigger] all[m]);
        if m < a.len() {
            assert(a.contains(a[m]));
        } else {
            assert(b.contains(b[m - a.len()]));
        }
        let value = all[m];
        assert(exists|k: int| 0 <= k < nodes.len() && #[trigger] nodes[k] == value);
        let k = choose|k: int| 0 <= k < nodes.len() && #[trigger] nodes[k] == value;
        assert(visible(nodes[k]));
    }
}

/// Putting hidden children last does not change whether something of a node is shown.
pub proof fn normal_keeps_visibility(node: NodeView)
    ensures
        visible(normal(node)) == visible(node),
    decreases node,
{
    let list = normal_list(node.children, node.children.len());
    lemma_normal_list(node.children, node.children.len());
    assert forall|k: int| 0 <= k < list.len() implies visible(#[trigger] list[k]) == visible(
        node.children[k],
    ) by {
        normal_keeps_visibility(node.children[k]);
    }
    lemma_any_visible_iff(node.children, node.children.len());
    lemma_any_visible_iff(list, list.len());
    if any_visible(node.children, node.children.len()) {
        let k = choose|k: int|
            0 <= k < node.children.len() && visible(#[trigger] node.children[k]);
        assert(visible(list[k]));
    }
    if any_visible(list, list.len()) {
        let k = choose|k: int| 0 <= k < list.len() && visible(#[trigger] list[k]);
        assert(visible(node.children[k]));
    }
    lemma_set_first_visible(list);
}

/// Putting hidden children last once more changes nothing.
pub proof fn normal_is_idempotent(node: NodeView)
    ensures
        normal(normal(node)) == normal(node),
    decreases node,
{
    let list = normal_list(node.children, node.children.len());
    let flags = shown(list);
    lemma_normal_list(node.children, node.children.len());
    assert forall|k: int| 0 <= k < list.len() implies normal(#[trigger] list[k]) == list[k] by {
        normal_is_idempotent(node.children[k]);
    }
    let once = normal(node);
    let again = normal_list(once.children, once.children.len());
    lemma_normal_list(once.children, once.children.len());
    lemma_chosen_lengths(list, flags);
    lemma_chosen_elements(list, flags, true);
    lemma_chosen_elements(list, flags, false);
    assert forall|k: int| 0 <= k < once.children.len() implies normal(#[trigger] once.children[k])
        == once.children[k] by {
        let value = once.children[k];
        let a = chosen(list, flags, true);
        let b = chosen(list, flags, false);
        if once.children == list {
        } else if k < a.len() {
            assert(a.contains(a[k]));
            let m = choose|m: int|
                0 <= m < list.len() && #[trigger] list[m] == value && flags[m] == true;
            assert(normal(list[m]) == list[m]);
        } else {
            assert(b.contains(b[k - a.len()]));
            let m = choose|m: int|
                0 <= m < list.len() && #[trigger] list[m] == value && flags[m] == false;
            assert(normal(list[m]) == list[m]);
        }
    }
    assert(again =~= once.children);
    if let Some(sizes) = node.stack_sizes {
        lemma_chosen_lengths(sizes, flags);
        if sizes.len() == list.len() {
            lemma_shown_set_first(list, flags);
            set_first_is_stable(list, flags);
            set_first_is_stable(sizes, flags);
        }
    }
}

proof fn lemma_shown_set_first(nodes: Seq<NodeView>, flags: Seq<bool>)
    requires
        flags == shown(nodes),
    ensures
        shown(set_first(nodes, flags)) == set_first(flags, flags),
{
    lemma_shown_chosen(nodes, flags, true);
    lemma_shown_chosen(nodes, flags, false);
    assert(shown(set_first(nodes, flags)) =~= shown(chosen(nodes, flags, true)) + shown(
        chosen(nodes, flags, false),
    ));
}

proof fn lemma_shown_chosen(nodes: Seq<NodeView>, flags: Seq<bool>, wanted: bool)
    ensures
        shown(chosen(nodes, flags, wanted)) == chosen(shown(nodes), flags, wanted),
    decreases nodes.len(),
{
    if nodes.len() > 0 {
        lemma_shown_chosen(nodes.drop_last(), flags, wanted);
        assert(shown(nodes).drop_last() =~= shown(nodes.drop_last()));
        assert(shown(chosen(nodes, flags, wanted)) =~= chosen(shown(nodes), flags, wanted));
    } else {
        assert(shown(chosen(nodes, flags, wanted)) =~= chosen(shown(nodes), flags, wanted));
    }
}

/// The parts of a saved arrangement that hold panels.
pub struct SavedLayout {
    pub center: Option<PanelNode>,
    pub left: Option<PanelNode>,
    pub right: Option<PanelNode>,
    pub bottom: Option<PanelNode>,
}

/// What a part holds, if it is there.
pub open spec fn part_view(part: Option<PanelNode>) -> Option<NodeView> {
    match part {
        Some(node) => Some(node@),
        None => None,
    }
}

/// A part with its hidden children last.
pub open spec fn normal_part(part: Option<NodeView>) -> Option<NodeView> {
    match part {
        Some(node) => Some(normal(node)),
        None => None,
    }
}

/// Somewhere in a part a stack has children of both kinds.
pub open spec fn part_mixed(part: Option<NodeView>) -> bool {
    match part {
        Some(node) => has_mixed(node),
        None => false,
    }
}

fn normalize_part(part: Option<PanelNode>) -> (r: (Option<PanelNode>, bool))
    ensures
        part_view(r.0) == normal_part(part_view(part)),
        r.1 == part_mixed(part_view(part)),
{
    match part {
        Some(node) => {
            let (node, changed) = normalize_hidden_stack_children(node);
            (Some(node), changed)
        },
        None => (None, false),
    }
}

/// Puts hidden children last everywhere in a saved arrangement. There is a result only where
/// some stack had children of both kinds; otherwise the arrangement can stay as it is.
pub fn normalize_hidden_dock_panels(layout: SavedLayout) -> (r: Option<SavedLayout>)
    ensures
        r is Some == (part_mixed(part_view(layout.center)) || part_mixed(part_view(layout.left))
            || part_mixed(part_view(layout.right)) || part_mixed(part_view(layout.bottom))),
        r matches Some(normalized) ==> {
            &&& part_view(normalized.center) == normal_part(part_view(layout.center))
            &&& part_view(normalized.left) == normal_part(part_view(layout.left))
            &&& part_view(normalized.right) == normal_part(part_view(layout.right))
            &&& part_view(normalized.bottom) == normal_part(part_view(layout.bottom))
        },
{
    let (center, a) = normalize_part(layout.center);
    let (left, b) = normalize_part(layout.left);
    let (right, c) = normalize_part(layout.right);
    let (bottom, d) = normalize_part(layout.bottom);
    if a || b || c || d {
        Some(SavedLayout { center, left, right, bottom })
    } else {
        None
    }
}

/// The state that a panel saves of itself.
pub open spec fn panel_state(id: u64, visible: bool) -> NodeView {
    NodeView { id, children: Seq::empty(), stack_sizes: None, panel: Some(Some(visible)) }
}

/// The state that a panel saves of itself.
pub fn visibility_state(id: u64, visible: bool) -> (r: PanelNode)
    ensures
        r@ == panel_state(id, visible),
{
    let r = PanelNode { id, children: Vec::new(), stack_sizes: None, panel: Some(Some(visible)) };
    assert(r@ =~= panel_state(id, visible));
    r
}

/// Whether a panel was shown when its state was saved, if the state says so.
pub open spec fn saved_visibility(node: NodeView) -> Option<bool> {
    match node.panel {
        Some(shown) => shown,
        None => None,
    }
}

/// What a panel saves of itself says whether it is shown.
pub proof fn visibility_reads_back(id: u64, shown: bool)
    ensures
        saved_visibility(panel_state(id, shown)) == Some(shown),
        visible(panel_state(id, shown)) == shown,
{
}

/// Whether a panel was shown when its state was saved, if the state says so.
pub fn restored_visibility(node: &PanelNode) -> (r: Option<bool>)
    ensures
        r == saved_visibility(node@),
{
    match node.panel {
        Some(shown) => shown,
        None => None,
    }
}

/// The items that a flag chooses stand in their order.
pub proof fn chosen_items_stay_in_order<T>(items: Seq<T>, flags: Seq<bool>, wanted: bool)
    ensures
        chosen(items, flags, wanted) == Seq::new(items.len(), |i: int| i).filter(
            |i: int| flags[i] == wanted,
        ).map_values(|i: int| items[i]),
    decreases items.len(),
{
    reveal(Seq::filter);
    let places = Seq::new(items.len(), |i: int| i);
    let right = |i: int| flags[i] == wanted;
    let item = |i: int| items[i];
    if items.len() > 0 {
        let rest = items.drop_last();
        let before = Seq::new(rest.len(), |i: int| i);
        chosen_items_stay_in_order(rest, flags, wanted);
        assert(places.drop_last() =~= before);
        assert(places.last() == items.len() - 1);
        lemma_places(rest, flags, wanted);
        let known = before.filter(right);
        assert forall|k: int| 0 <= k < known.len() implies 0 <= #[trigger] known[k] < rest.len() by {}
        assert(known.map_values(item) =~= known.map_values(|i: int| rest[i]));
        assert(known.push(items.len() - 1).map_values(item) =~= known.map_values(item).push(
            items.last(),
        ));
    }
    assert(chosen(items, flags, wanted) =~= places.filter(right).map_values(item));
}

proof fn lemma_places<T>(items: Seq<T>, flags: Seq<bool>, wanted: bool)
    ensures
        ({
            let known = Seq::new(items.len(), |i: int| i).filter(|i: int| flags[i] == wanted);
            forall|k: int| 0 <= k < known.len() ==> 0 <= #[trigger] known[k] < items.len()
        }),
    decreases items.len(),
{
    reveal(Seq::filter);
    let places = Seq::new(items.len(), |i: int| i);
    let right = |i: int| flags[i] == wanted;
    if items.len() > 0 {
        let rest = items.drop_last();
        lemma_places(rest, flags, wanted);
        assert(places.drop_last() =~= Seq::new(rest.len(), |i: int| i));
        assert(places.last() == items.len() - 1);
        let before = Seq::new(rest.len(), |i: int| i).filter(right);
        let known = places.filter(right);
        assert forall|k: int| 0 <= k < known.len() implies 0 <= #[trigger] known[k]
            < items.len() by {
            if k < before.len() {
                assert(known[k] == before[k]);
            }
        }
    }
}

/// The visible items stand first and the hidden ones behind them, each in the order they had.
pub proof fn visible_items_stand_first<T>(items: Seq<T>, flags: Seq<bool>)
    ensures
        set_first(items, flags) == Seq::new(items.len(), |i: int| i).filter(
            |i: int| flags[i] == true,
        ).map_values(|i: int| items[i]) + Seq::new(items.len(), |i: int| i).filter(
            |i: int| flags[i] == false,
        ).map_values(|i: int| items[i]),
{
    chosen_items_stay_in_order(items, flags, true);
    chosen_items_stay_in_order(items, flags, false);
}

proof fn lemma_normal_children(nodes: Seq<NodeView>, count: nat)
    requires
        count <= nodes.len(),
    ensures
        normal_list(nodes, count) == nodes.take(count as int).map_values(
            |child: NodeView| normal(child),
        ),
    decreases count,
{
    if count > 0 {
        lemma_normal_children(nodes, (count - 1) as nat);
    }
    assert(normal_list(nodes, count) =~= nodes.take(count as int).map_values(
        |child: NodeView| normal(child),
    ));
}

/// An arrangement is put right from the leaves up. In a stack with a size for each child, the
/// visible children and their sizes come first; everything else stays as it is.
pub proof fn stacks_have_their_hidden_children_last(node: NodeView)
    ensures
        ({
            let children = node.children.map_values(|child: NodeView| normal(child));
            let shown = children.map_values(|child: NodeView| visible(child));
            normal(node) == match node.stack_sizes {
                Some(sizes) => if sizes.len() == node.children.len() {
                    NodeView {
                        children: set_first(children, shown),
                        stack_sizes: Some(set_first(sizes, shown)),
                        ..node
                    }
                } else {
                    NodeView { children, ..node }
                },
                None => NodeView { children, ..node },
            }
        }),
{
    lemma_normal_children(node.children, node.children.len());
    assert(node.children.take(node.children.len() as int) =~= node.children);
}

/// A node that carries the state of a panel is visible as that says, or where it says nothing; any
/// other is visible if one of its children is.
pub proof fn visibility_comes_from_the_panels(node: NodeView)
    ensures
        node.panel matches Some(state) ==> visible(node) == (state != Some(false)),
        node.panel is None ==> (visible(node) <==> exists|i: int|
            0 <= i < node.children.len() && visible(#[trigger] node.children[i])),
{
    lemma_any_visible_iff(node.children, node.children.len());
}

proof fn lemma_not_mixed<T>(children: Seq<T>, flags: Seq<bool>)
    requires
        children.len() == flags.len(),
        !(flags.contains(true) && flags.contains(false)),
    ensures
        set_first(children, flags) == children,
{
    if flags.contains(true) {
        assert forall|i: int| 0 <= i < flags.len() implies #[trigger] flags[i] by {
            if !flags[i] {
                assert(flags.contains(false));
            }
        }
        lemma_all_chosen(children, flags, true);
    } else {
        assert forall|i: int| 0 <= i < flags.len() implies !#[trigger] flags[i] by {
            if flags[i] {
                assert(flags.contains(true));
            }
        }
        lemma_all_chosen(children, flags, false);
    }
    assert(set_first(children, flags) =~= children);
}

proof fn lemma_all_chosen<T>(items: Seq<T>, flags: Seq<bool>, all: bool)
    requires
        items.len() <= flags.len(),
        forall|i: int| 0 <= i < flags.len() ==> #[trigger] flags[i] == all,
    ensures
        chosen(items, flags, all) == items,
        chosen(items, flags, !all) == Seq::<T>::empty(),
    decreases items.len(),
{
    if items.len() > 0 {
        lemma_all_chosen(items.drop_last(), flags, all);
        assert(flags[items.len() - 1] == all);
        assert(items.drop_last().push(items.last()) =~= items);
    } else {
        assert(chosen(items, flags, all) =~= items);
    }
}

proof fn lemma_unmixed_list(nodes: Seq<NodeView>, count: nat)
    requires
        count <= nodes.len(),
        !has_mixed_list(nodes, count),
    ensures
        normal_list(nodes, count) == nodes.take(count as int),
    decreases nodes, count,
{
    if count > 0 {
        lemma_unmixed_list(nodes, (count - 1) as nat);
        unmixed_arrangements_stay_as_they_are(nodes[count - 1]);
        assert(nodes.take(count - 1).push(nodes[count - 1]) =~= nodes.take(count as int));
    } else {
        assert(normal_list(nodes, count) =~= nodes.take(count as int));
    }
}

/// An arrangement is left as it is unless some stack holds a visible child and a hidden one.
pub proof fn unmixed_arrangements_stay_as_they_are(node: NodeView)
    requires
        !has_mixed(node),
    ensures
        normal(node) == node,
    decreases node, 0nat,
{
    let children = node.children;
    lemma_unmixed_list(children, children.len());
    assert(children.take(children.len() as int) =~= children);
    if let Some(sizes) = node.stack_sizes {
        if sizes.len() == children.len() {
            lemma_not_mixed(children, shown(children));
            lemma_not_mixed(sizes, shown(children));
        }
    }
}

} // verus!
