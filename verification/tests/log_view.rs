use logd::log_view::{
    edited_copy_name, gutter_digits, on_key, patches_are_in_place, write_edited_copy, CopiedRow,
    CopyPiece, Drag, Edits, FilterStyle, LinePatch, LineSelection, LogView, MatchUpdate,
    ScanOutcome, ScanRequest, TextSpan, ViewKey, ViewRow,
};

fn view() -> LogView {
    LogView::new(LogView::load(Ok(()), None, true).unwrap())
}

fn copy(data: &[u8], mark: usize, patches: Vec<LinePatch>) -> Vec<u8> {
    assert!(patches_are_in_place(data.len(), mark, &patches));
    let mut out = Vec::new();
    for piece in write_edited_copy(data.len(), mark, &patches) {
        match piece {
            CopyPiece::Kept { from, to } => out.extend(&data[from..to]),
            CopyPiece::Patched { patch } => out.extend(&patches[patch].bytes),
        }
    }
    out
}

fn patch(span: Option<(usize, usize)>, bytes: &[u8]) -> LinePatch {
    LinePatch {
        span,
        bytes: bytes.to_vec(),
    }
}

#[test]
fn edited_lines_are_replaced_in_a_copy() {
    let data = b"one\ntwo\nthree\n";
    assert_eq!(copy(data, 0, Vec::new()), data);
    assert_eq!(
        copy(data, 0, vec![patch(Some((4, 7)), b"2"), patch(None, b"x"), patch(Some((8, 13)), b"III")]),
        b"one\n2\nIII\n"
    );
    assert_eq!(copy(data, 0, vec![patch(Some((0, 3)), b"one")]), data);
}

#[test]
fn the_mark_at_the_front_stays() {
    let data = b"\xef\xbb\xbfone\ntwo";
    assert_eq!(copy(data, 3, vec![patch(Some((0, 6)), b"1")]), b"\xef\xbb\xbf1\ntwo");
}

#[test]
fn copies_get_a_name_of_their_own() {
    assert_eq!(edited_copy_name(Some("a.log")), "a.log.edited");
    assert_eq!(edited_copy_name(None), "log.edited");
    assert_eq!(gutter_digits(0), 4);
    assert_eq!(gutter_digits(9_999), 4);
    assert_eq!(gutter_digits(10_000), 5);
    assert_eq!(gutter_digits(1_000_000), 7);
}

#[test]
fn edits_are_kept_by_line() {
    let mut edits = Edits::new();
    assert!(edits.is_empty());
    edits.insert(9, "nine".to_owned());
    edits.insert(2, "two".to_owned());
    edits.insert(9, "NINE".to_owned());
    assert_eq!(
        edits.entries(),
        vec![(2, "two".to_owned()), (9, "NINE".to_owned())]
    );
    assert_eq!(edits.get(9).as_deref(), Some("NINE"));
    assert_eq!(edits.get(3), None);
    assert!(edits.same(&edits.copy()));
    assert!(!edits.same(&Edits::new()));
}

#[test]
fn a_committed_edit_is_shown_and_has_to_be_saved() {
    let mut view = view();
    assert_eq!(view.edit_selected(None, None), None);
    assert!(!view.commit_edit("x".to_owned()));
    assert_eq!(view.edit_selected(Some(4), Some("old".to_owned())).as_deref(), Some("old"));
    assert!(view.commit_edit("new".to_owned()));
    assert!(!view.can_close_without_prompt());
    let row = ViewRow {
        file_line: 4,
        shown: "old".to_owned(),
        line_filter: None,
        spans: vec![TextSpan { start: 0, end: 3, filter: 0 }],
    };
    let style = FilterStyle { fore: Some(1), back: None, bold: true, italic: false };
    let model = view.row_model(&row, 0, &vec![style]);
    assert_eq!(model.shown, "new");
    assert_eq!(model.number, "5");
    assert!(model.runs.is_empty());
    assert_eq!(view.edit_selected(Some(4), Some("old".to_owned())).as_deref(), Some("new"));
    assert!(view.cancel_edit());
    assert!(!view.cancel_edit());
    let written = view.save_edited_copy().unwrap();
    view.finish_save(true, Ok(()), &written);
    assert_eq!(view.error().as_deref(), Some("edited copy must use a new path"));
    view.finish_save(false, Err("full".to_owned()), &written);
    assert_eq!(view.error().as_deref(), Some("full"));
    assert!(!view.can_close_without_prompt());
    view.finish_save(false, Ok(()), &written);
    assert!(view.can_close_without_prompt());
    assert_eq!(view.error(), None);
}

#[test]
fn rows_show_their_filters() {
    let view = view();
    let style = FilterStyle { fore: Some(1), back: None, bold: true, italic: false };
    let row = ViewRow {
        file_line: 0,
        shown: "abc".to_owned(),
        line_filter: Some(0),
        spans: vec![
            TextSpan { start: 0, end: 1, filter: 0 },
            TextSpan { start: 1, end: 2, filter: 7 },
        ],
    };
    let model = view.row_model(&row, 3, &vec![style]);
    assert_eq!(model.style, Some(style));
    assert_eq!(model.runs, vec![(TextSpan { start: 0, end: 1, filter: 0 }, style)]);
    assert!(!model.selected && !model.editing);
}

#[test]
fn an_outdated_scan_is_dropped() {
    let mut view = view();
    view.mark_dirty();
    let first = view.apply_filters(Ok(false));
    assert!(!view.is_dirty());
    assert!(view.is_busy());
    let second = view.start_scan(false);
    let (ScanRequest::Scan { generation: old }, ScanRequest::Scan { generation: new }) =
        (first, second)
    else {
        panic!("two scans");
    };
    assert_eq!(view.finish_scan(old, ScanOutcome::Matched), MatchUpdate::Keep);
    assert!(view.is_busy());
    assert_eq!(view.finish_scan(new, ScanOutcome::Matched), MatchUpdate::Replace);
    assert!(!view.is_busy());
    assert_eq!(view.start_scan(true), ScanRequest::ShowAll);
    view.apply_filters(Err("bad pattern".to_owned()));
    assert_eq!(view.error().as_deref(), Some("bad pattern"));
}

#[test]
fn loading_says_what_failed_and_what_is_cached() {
    assert!(LogView::load(Err("gone".to_owned()), None, true).is_err());
    let cached = LogView::new(LogView::load(Ok(()), Some(true), false).unwrap());
    assert!(cached.from_cache());
    assert!(!cached.is_busy());
    let mut partial = LogView::new(LogView::load(Ok(()), None, false).unwrap());
    assert!(partial.is_busy());
    assert!(matches!(partial.finish_index(true, false), ScanRequest::Scan { .. }));
}

#[test]
fn selections_extend_and_are_copied() {
    let mut view = view();
    view.select_row(5, false);
    view.select_row(3, true);
    assert_eq!(view.selection, Some(LineSelection { anchor_row: 5, active_row: 3 }));
    assert_eq!(view.selection.unwrap().range(), (3, 5));
    assert!(view.selection.unwrap().contains(4));
    assert!(!view.selection.unwrap().contains(6));
    assert_eq!(view.edited_row(0), 3);
    view.edit_selected(Some(4), None);
    view.commit_edit("edited".to_owned());
    let rows = vec![
        CopiedRow { file_line: Some(3), shown: Some("three".to_owned()) },
        CopiedRow { file_line: Some(4), shown: Some("four".to_owned()) },
        CopiedRow { file_line: None, shown: None },
    ];
    assert_eq!(view.copy_selection(&rows).as_deref(), Some("three\nedited"));
    assert_eq!(view.dragged(false), Drag::Nothing);
    view.release_mouse();
}

#[test]
fn keys_move_edit_and_copy() {
    assert_eq!(on_key("c", true), ViewKey::Copy);
    assert_eq!(on_key("c", false), ViewKey::Nothing);
    assert_eq!(on_key("enter", false), ViewKey::Edit);
    assert_eq!(on_key("escape", false), ViewKey::CancelEdit);
    assert_eq!(on_key("home", true), ViewKey::Top);
    assert_eq!(on_key("home", false), ViewKey::LineStart);
    assert_eq!(on_key("pagedown", false), ViewKey::Page { down: true });
}
