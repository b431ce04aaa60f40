use logd::marks::{
    copy_log_lines, copy_marked_lines, marked_lines, unmark_lines, MarkKey, MarkPanel,
    MarkedLogLine, TabMarks,
};

#[test]
fn selections_replace_extend_and_toggle() {
    let keys = vec![(1, 1), (1, 5), (2, 3), (2, 9)];
    let mut panel = MarkPanel::new();
    panel.select((1, 5), 1, &keys, false, false);
    let order = vec![1, 2];
    assert_eq!(panel.selected_lines(&order), vec![(1, 5)]);
    panel.select((2, 9), 3, &keys, false, true);
    assert_eq!(panel.selected_lines(&order), vec![(1, 5), (2, 3), (2, 9)]);
    panel.select((2, 3), 2, &keys, true, false);
    assert!(!panel.is_selected((2, 3)));
    panel.select((2, 3), 2, &keys, true, false);
    assert!(panel.is_selected((2, 3)));
    panel.select_all(&keys);
    assert_eq!(panel.selected_lines(&order), keys);
}

#[test]
fn selected_lines_come_by_path_and_number() {
    let keys = vec![(1, 3), (1, 5), (2, 4), (9, 0), (7, 6)];
    let mut panel = MarkPanel::new();
    for index in [1, 3, 2, 0, 4] {
        panel.select(keys[index], index, &keys, true, false);
    }
    assert_eq!(
        panel.selected_lines(&vec![2, 1]),
        vec![(2, 4), (1, 3), (1, 5), (7, 6), (9, 0)]
    );
    assert_eq!(
        panel.selected_lines_for_context((1, 5), &vec![9, 7, 1, 2]),
        vec![(9, 0), (7, 6), (1, 3), (1, 5), (2, 4)]
    );
}

#[test]
fn keys_select_and_copy() {
    let mut panel = MarkPanel::new();
    assert_eq!(panel.on_key(true, true, "a"), MarkKey::SelectAll);
    assert_eq!(panel.on_key(true, true, "c"), MarkKey::Nothing);
    panel.select((1, 1), 0, &vec![(1, 1)], false, false);
    assert_eq!(panel.on_key(true, true, "c"), MarkKey::Copy);
    assert_eq!(panel.on_key(false, true, "c"), MarkKey::Nothing);
    assert_eq!(panel.on_key(true, false, "a"), MarkKey::Nothing);
}

#[test]
fn the_context_menu_works_on_the_selection_around_it() {
    let keys = vec![(1, 1), (1, 2), (1, 3)];
    let mut panel = MarkPanel::new();
    panel.select((1, 1), 0, &keys, false, false);
    panel.select((1, 2), 1, &keys, true, false);
    let order = vec![1];
    assert_eq!(panel.selected_lines_for_context((1, 2), &order), vec![(1, 1), (1, 2)]);
    assert_eq!(panel.selected_lines_for_context((1, 3), &order), vec![(1, 3)]);
}

#[test]
fn removed_lines_leave_the_selection() {
    let keys = vec![(1, 1), (1, 2), (2, 1)];
    let mut panel = MarkPanel::new();
    panel.select_all(&keys);
    panel.prune_selection(&vec![(1, 1)], &vec![1, 2]);
    assert_eq!(panel.current_line, Some((1, 2)));
    assert_eq!(panel.selected_lines(&vec![1, 2]), vec![(1, 2), (2, 1)]);
}

fn mark(path: u64, line: u64, text: &str) -> MarkedLogLine {
    MarkedLogLine {
        path,
        title: format!("file {path}"),
        file_line: line,
        text: text.to_owned(),
    }
}

#[test]
fn marked_lines_are_copied_in_order() {
    let marks = vec![mark(1, 3, "three"), mark(1, 8, "eight"), mark(2, 0, "zero")];
    assert_eq!(
        copy_marked_lines(&marks, &vec![(2, 0), (1, 3)]).as_deref(),
        Some("three\nzero")
    );
    assert_eq!(copy_marked_lines(&marks, &vec![(9, 9)]), None);
    assert_eq!(
        copy_log_lines(&vec![Some("a".to_owned()), None, Some("b".to_owned())]).as_deref(),
        Some("a\nb")
    );
    assert_eq!(copy_log_lines(&vec![None]), None);
    assert_eq!(unmark_lines(&vec![(1, 3), (2, 0), (1, 8)], 1), vec![3, 8]);
}

#[test]
fn the_title_names_the_current_file() {
    let mut panel = MarkPanel::new();
    let marks = vec![mark(1, 3, "three")];
    assert_eq!(panel.title("Marks", &marks), "Marks");
    panel.select((1, 3), 0, &vec![(1, 3)], false, false);
    assert_eq!(panel.title("Marks", &marks), "Marks - file 1");
    assert_eq!(panel.title("Marks", &Vec::new()), "Marks");
    assert!(panel.set_visible(false));
    assert!(!panel.visible());
}

#[test]
fn marks_of_all_tabs_are_listed() {
    let tabs = vec![
        TabMarks {
            path: 1,
            title: "one".to_owned(),
            lines: vec![(2, Some("two".to_owned())), (4, None)],
        },
        TabMarks {
            path: 2,
            title: "other".to_owned(),
            lines: vec![(0, Some("zero".to_owned()))],
        },
    ];
    let lines = marked_lines(&tabs);
    assert_eq!(lines.len(), 3);
    assert_eq!((lines[1].file_line, lines[1].text.as_str()), (4, ""));
    assert_eq!((lines[2].path, lines[2].title.as_str()), (2, "other"));
}
