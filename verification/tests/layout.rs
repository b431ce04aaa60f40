use logd::dock::{
    panel_language, panel_name, panel_of_name, render_tab_bar, restored_or, zoom_label, FilterPanel,
    GroupPanel, LogPanel, TabBar, FILTER_PANEL, MARK_PANEL, REGEX_TABLE_PANEL,
    SEARCH_RESULTS_PANEL, WORKSPACE_PANEL,
};
use logd::i18n::{Key, Language};
use logd::layout::{
    default_dock_layout, normalize_hidden_dock_panels, normalize_hidden_stack_children,
    panel_state_visible, restored_visibility, visibility_state, DockPlacement, DockTree, PanelKind,
    PanelNode, SavedLayout,
};

fn panel(id: u64, visible: Option<bool>) -> PanelNode {
    PanelNode {
        id,
        children: Vec::new(),
        stack_sizes: None,
        panel: Some(visible),
    }
}

fn stack(id: u64, children: Vec<PanelNode>, sizes: &[&str]) -> PanelNode {
    PanelNode {
        id,
        children,
        stack_sizes: Some(sizes.iter().map(|size| size.to_string()).collect()),
        panel: None,
    }
}

fn ids(node: &PanelNode) -> Vec<u64> {
    node.children.iter().map(|child| child.id).collect()
}

#[test]
fn panel_visibility_round_trips_through_json() {
    for visible in [false, true] {
        let state = visibility_state(1, visible);
        let mut info = serde_json::Map::new();
        info.insert(
            "visible".to_owned(),
            serde_json::Value::Bool(state.panel.unwrap().unwrap()),
        );
        let mut whole = serde_json::Map::new();
        whole.insert("panel_name".to_owned(), FILTER_PANEL.into());
        whole.insert("info".to_owned(), serde_json::Value::Object(info));
        let json = serde_json::to_string(&whole).unwrap();
        let restored: serde_json::Value = serde_json::from_str(&json).unwrap();

        assert_eq!(restored.get("panel_name").unwrap(), FILTER_PANEL);
        let node = PanelNode {
            id: 1,
            children: Vec::new(),
            stack_sizes: None,
            panel: Some(restored.get("info").unwrap().get("visible").unwrap().as_bool()),
        };
        assert_eq!(restored_visibility(&node), Some(visible));
        assert!(restored_or(&node, !visible) == visible);
    }
}

#[test]
fn a_state_without_visibility_changes_nothing() {
    assert_eq!(restored_visibility(&panel(1, None)), None);
    assert!(restored_or(&panel(1, None), true));
    assert!(!restored_or(&stack(1, Vec::new(), &[]), false));
}

#[test]
fn hidden_children_move_behind_the_others_with_their_sizes() {
    let node = stack(
        1,
        vec![panel(2, Some(false)), panel(3, Some(true)), panel(4, None)],
        &["20", "30", "40"],
    );
    let (node, changed) = normalize_hidden_stack_children(node);
    assert!(changed);
    assert_eq!(ids(&node), vec![3, 4, 2]);
    assert_eq!(node.stack_sizes.as_ref().unwrap(), &["30", "40", "20"]);
    let (node, changed) = normalize_hidden_stack_children(node);
    assert_eq!(ids(&node), vec![3, 4, 2]);
    assert!(panel_state_visible(&node));
    let _ = changed;
}

#[test]
fn children_that_are_all_shown_stay() {
    let node = stack(1, vec![panel(2, Some(true)), panel(3, None)], &["20", "30"]);
    let (node, changed) = normalize_hidden_stack_children(node);
    assert!(!changed);
    assert_eq!(ids(&node), vec![2, 3]);
}

#[test]
fn hidden_panels_are_put_in_order_everywhere() {
    let inner = stack(5, vec![panel(6, Some(false)), panel(7, Some(true))], &["1", "2"]);
    let layout = SavedLayout {
        center: Some(stack(1, vec![panel(2, Some(true)), inner], &["1", "2"])),
        left: None,
        right: Some(panel(8, Some(false))),
        bottom: None,
    };
    let layout = normalize_hidden_dock_panels(layout).unwrap();
    let center = layout.center.unwrap();
    assert_eq!(ids(&center), vec![2, 5]);
    assert_eq!(ids(&center.children[1]), vec![7, 6]);
    let settled = SavedLayout {
        center: Some(panel(1, None)),
        left: None,
        right: None,
        bottom: None,
    };
    assert!(normalize_hidden_dock_panels(settled).is_none());
}

fn panels(tree: &DockTree) -> Vec<PanelKind> {
    match tree {
        DockTree::Panel(kind) => vec![*kind],
        DockTree::Split { first, second, .. } => {
            let mut all = panels(first);
            all.extend(panels(second));
            all
        }
    }
}

#[test]
fn the_default_arrangement_holds_every_panel_once() {
    assert_eq!(
        panels(&default_dock_layout(DockPlacement::Left)),
        vec![
            PanelKind::Filters,
            PanelKind::Workspace,
            PanelKind::SearchResults,
            PanelKind::RegexTable,
            PanelKind::Marks
        ]
    );
    for placement in [DockPlacement::Bottom, DockPlacement::Right, DockPlacement::Center] {
        assert_eq!(
            panels(&default_dock_layout(placement)),
            vec![
                PanelKind::Workspace,
                PanelKind::SearchResults,
                PanelKind::RegexTable,
                PanelKind::Marks,
                PanelKind::Filters
            ]
        );
    }
}

fn group(panels: &[(&str, bool)]) -> Vec<GroupPanel> {
    panels
        .iter()
        .map(|(name, visible)| GroupPanel {
            name: name.to_string(),
            visible: *visible,
        })
        .collect()
}

#[test]
fn a_single_panel_has_no_tabs() {
    assert_eq!(render_tab_bar(&group(&[(WORKSPACE_PANEL, true)])), TabBar::Nothing);
    assert_eq!(
        render_tab_bar(&group(&[(MARK_PANEL, false), (FILTER_PANEL, true)])),
        TabBar::ToolTitle(1)
    );
    assert_eq!(
        render_tab_bar(&group(&[(MARK_PANEL, true), (FILTER_PANEL, true)])),
        TabBar::Tabs
    );
    assert_eq!(render_tab_bar(&group(&[("other", true)])), TabBar::Tabs);
    assert_eq!(render_tab_bar(&group(&[])), TabBar::Tabs);
}

#[test]
fn panels_are_found_by_their_names() {
    for kind in [
        PanelKind::Workspace,
        PanelKind::Filters,
        PanelKind::Marks,
        PanelKind::SearchResults,
        PanelKind::RegexTable,
    ] {
        assert_eq!(panel_of_name(panel_name(kind)), Some(kind));
    }
    assert_eq!(panel_of_name("logd.other"), None);
    assert_eq!(panel_name(PanelKind::SearchResults), SEARCH_RESULTS_PANEL);
    assert_eq!(panel_name(PanelKind::RegexTable), REGEX_TABLE_PANEL);
    assert_eq!(LogPanel::new().panel_name(), "logd.workspace");
}

#[test]
fn panels_are_shown_and_hidden() {
    let mut filters = FilterPanel::new();
    assert!(filters.visible());
    assert!(!filters.set_visible(true));
    assert!(filters.set_visible(false));
    assert!(!filters.visible());
    assert_eq!(zoom_label(true), Key::Restore);
    assert_eq!(zoom_label(false), Key::Maximize);
    assert_eq!(panel_language(None), Language::EnUs);
    assert_eq!(panel_language(Some(Language::ZhCn)), Language::ZhCn);
}
