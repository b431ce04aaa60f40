use logd::tabs::{device_title, render_tabs, tab_title, Opening, TabCommand, TabList};

fn list(paths: &[u64], active: usize) -> TabList {
    let mut tabs = TabList::new();
    for path in paths {
        tabs.add_tab(*path, format!("tab {path}"));
    }
    tabs.set_active(active);
    tabs
}

fn paths(tabs: &TabList) -> Vec<u64> {
    tabs.tabs.iter().map(|tab| tab.path).collect()
}

#[test]
fn an_open_log_becomes_active() {
    let mut tabs = list(&[5, 6], 0);
    assert_eq!(tabs.open_log(6), Opening::Existing(1));
    assert_eq!(tabs.active, 1);
    assert_eq!(tabs.open_log(7), Opening::Load);
    assert_eq!(tabs.active, 1);
}

#[test]
fn closing_a_tab_keeps_the_active_one() {
    let mut tabs = list(&[1, 2, 3], 2);
    assert!(!tabs.close_tab(0));
    assert_eq!((paths(&tabs), tabs.active), (vec![2, 3], 1));
    assert!(tabs.close_tab(1));
    assert_eq!((paths(&tabs), tabs.active), (vec![2], 0));
    assert!(!tabs.close_tab(4));
    assert!(!tabs.close_tab(0));
    assert_eq!((paths(&tabs), tabs.active), (vec![], 0));
}

#[test]
fn tabs_on_one_side_are_closed() {
    let mut tabs = list(&[1, 2, 3, 4], 1);
    assert!(tabs.close_tabs_before(2));
    assert_eq!((paths(&tabs), tabs.active), (vec![3, 4], 1));
    let mut tabs = list(&[1, 2, 3, 4], 1);
    assert!(!tabs.close_tabs_after(1));
    assert_eq!((paths(&tabs), tabs.active), (vec![1, 2], 1));
    assert!(!tabs.close_tabs_after(1));
    assert!(!tabs.close_tabs_before(0));
    tabs.close_all_tabs();
    assert_eq!((paths(&tabs), tabs.active), (vec![], 0));
}

#[test]
fn flagged_tabs_are_closed() {
    let mut tabs = list(&[1, 2, 3], 2);
    assert!(tabs.close_flagged(&vec![true, false, false]));
    assert_eq!((paths(&tabs), tabs.active), (vec![2, 3], 1));
    assert!(!tabs.close_flagged(&vec![true, true]));
    assert_eq!((paths(&tabs), tabs.active), (vec![], 0));
}

#[test]
fn a_moved_tab_stands_in_front_of_its_target() {
    let mut tabs = list(&[1, 2, 3, 4], 0);
    tabs.reorder_tab(0, 3);
    assert_eq!((paths(&tabs), tabs.active), (vec![2, 3, 1, 4], 2));
    tabs.reorder_tab(3, 0);
    assert_eq!((paths(&tabs), tabs.active), (vec![4, 2, 3, 1], 3));
    tabs.reorder_tab(9, 0);
    assert_eq!(paths(&tabs), vec![4, 2, 3, 1]);
}

#[test]
fn neighbours_go_round() {
    let tabs = list(&[1, 2, 3], 2);
    assert_eq!(tabs.neighbour(true), Some(0));
    assert_eq!(tabs.neighbour(false), Some(1));
    assert_eq!(TabList::new().neighbour(true), None);
}

#[test]
fn titles_come_from_names_paths_and_devices() {
    assert_eq!(tab_title(Some("a.log"), "/x/a.log"), "a.log");
    assert_eq!(tab_title(None, "/"), "/");
    assert_eq!(device_title("S1"), "ADB S1");
    let mut tabs = list(&[1, 2], 0);
    tabs.set_title(2, "ADB S1".to_owned());
    let (views, commands) = render_tabs(&tabs);
    assert_eq!(views[1].title, "ADB S1");
    assert!(views[0].active && !views[1].active);
    assert_eq!(commands[0], TabCommand::Close);
    assert_eq!(commands.len(), 4);
}
