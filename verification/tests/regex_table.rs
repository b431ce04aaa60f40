use logd::regex_table::{
    clamp_range, extract_source, extract_table, extract_text_lines, extract_text_source,
    parse_line_range, plan_source, scan_chunk, table_of_matches, LineChunk, LineMatch,
    RecordTable, SourcePlan, SourceText, TextScan,
};

fn some_lines(lines: &[&str]) -> Vec<Option<String>> {
    lines.iter().map(|line| Some(line.to_string())).collect()
}

#[test]
fn parses_one_based_inclusive_line_ranges() {
    assert_eq!(parse_line_range("1-100", 1_000), Some(0..100));
    assert_eq!(parse_line_range("999-2000", 1_000), Some(998..1_000));
    assert_eq!(
        parse_line_range("10000-15000", 200_000),
        Some(9_999..15_000)
    );
}

#[test]
fn rejects_invalid_line_ranges() {
    assert_eq!(parse_line_range("", 100), None);
    assert_eq!(parse_line_range("20-10", 100), None);
    assert_eq!(parse_line_range("from-to", 100), None);
}

#[test]
fn line_ranges_may_start_at_zero_but_not_behind_the_source() {
    assert_eq!(parse_line_range("0-5", 100), Some(0..5));
    assert_eq!(parse_line_range("101-200", 100), None);
    assert_eq!(parse_line_range("7", 100), None);
    assert_eq!(parse_line_range(" 5 - 9 ", 100), Some(4..9));
}

#[test]
fn source_extraction_scans_only_the_requested_line_range() {
    let chunks = vec![
        LineChunk {
            start_line: 0,
            lines: some_lines(&["line 1", "line 2", "line 3", "line 4"]),
        },
        LineChunk {
            start_line: 4,
            lines: some_lines(&["line 5", "line 6"]),
        },
    ];
    let table = extract_text_source(&chunks, 6, r"line (?P<number>\d+)", &(2..5), usize::MAX);

    assert_eq!(table.scanned, 3);
    assert_eq!(
        table.rows.as_ref(),
        &vec![
            vec![String::from("3")],
            vec![String::from("4")],
            vec![String::from("5")]
        ]
    );
}

#[test]
fn named_capture_groups_form_columns() {
    let table = extract_table(
        "level=INFO user=alice\nlevel=ERROR user=bob",
        r"level=(?P<level>\w+) user=(?P<user>\w+)",
        100,
    );
    assert_eq!(table.columns, ["level", "user"]);
    assert_eq!(table.rows[1], ["ERROR", "bob"]);
}

#[test]
fn angle_named_capture_groups_form_columns() {
    let table = extract_table(
        "cur(s(1692)0.020000s,g[3.42 14016],dmy1128)",
        r"cur\(s\((?<sensor_id>\d+)\)(?<exposure>[\d.]+)s,g\[(?<gain>[\d.]+)\s+(?<code>\d+)\],dmy(?<dmy>\d+)\)",
        100,
    );
    assert_eq!(table.rows[0], ["1692", "0.020000", "3.42", "14016", "1128"]);
}

#[test]
fn ndjson_uses_object_nodes() {
    let table = extract_table("{\"a\":1,\"nested\":{\"b\":\"x\"}}\n{\"a\":2}", "", 100);
    assert_eq!(table.columns, ["a", "nested"]);
    assert_eq!(table.rows[0], ["1", "{\"b\":\"x\"}"]);
}

#[test]
fn json_array_is_supported() {
    let table = extract_table(r#"[{"id":1},{"id":2,"ok":true}]"#, "", 100);
    assert_eq!(table.columns, ["id", "ok"]);
    assert_eq!(table.rows[1], ["2", "true"]);
}

#[test]
fn supplied_pattern_matches_sample_log() {
    let input = "M079F6D  09-04 10:46:59.967   842 26978 D Libae:[Sub_fun]: 493,aec_lcg_alg_status_printf:ae.m,frm_id,0,unstb,near_stb,unlock,100Hz,sensor_fps[0,30],fps[14,30]:30.00,cur(s(1692)0.020000s,g[3.42 14016],dmy1128),nxt:idx241.88";
    let table = extract_table(
        input,
        r"cur\(s\((\d+)\)([\d.]+)s,g\[([\d.]+)\s+(\d+)\],dmy(\d+)\)",
        100,
    );
    assert_eq!(table.rows[0], ["1692", "0.020000", "3.42", "14016", "1128"]);
    assert_eq!(table.scanned, 1);
    assert_eq!(table.matched, 1);
}

#[test]
fn row_limit_does_not_limit_lines_scanned_before_a_match() {
    let input = format!("{}value=42", "irrelevant\n".repeat(6_000));
    let table = extract_table(&input, r"value=(\d+)", 5_000);
    assert_eq!(table.rows.as_ref(), &vec![vec!["42".to_owned()]]);
    assert_eq!(table.scanned, 6_001);
}

#[test]
fn streaming_text_extraction_preserves_named_and_unnamed_columns() {
    let lines = vec![
        "cur(s(1692)0.020000s,g[3.42 14016],dmy1128)".to_owned(),
        "noise".to_owned(),
    ];
    let table = extract_text_lines(
        &lines,
        r"cur\(s\((?<sensor_id>\d+)\)([\d.]+)s,g\[(?<gain>[\d.]+)\s+(\d+)\],dmy(?<dmy>\d+)\)",
        100,
    );
    assert_eq!(
        table.columns,
        ["sensor_id", "group_2", "gain", "group_4", "dmy"]
    );
    assert_eq!(table.matched, 1);
}

#[test]
fn a_broken_pattern_is_reported() {
    let table = extract_table("anything", "(", 10);
    assert!(table.error.is_some());
    assert!(table.columns.is_empty());
    assert_eq!(table.matched, 0);
    let chunk = LineChunk {
        start_line: 0,
        lines: some_lines(&["anything"]),
    };
    assert!(scan_chunk("(", &chunk, &(0..1)).is_empty());
}

#[test]
fn the_row_limit_ends_the_scan() {
    let lines = vec!["a1".to_owned(), "a2".to_owned(), "a3".to_owned()];
    let table = extract_text_lines(&lines, r"a(\d)", 2);
    assert_eq!(table.matched, 2);
    assert_eq!(table.scanned, 2);
    assert_eq!(table.rows.as_ref(), &vec![vec!["1".to_owned()], vec!["2".to_owned()]]);
}

#[test]
fn a_scan_takes_captures_one_line_at_a_time() {
    let mut scan = TextScan::new(&vec![None, Some("level".to_owned()), None], 2);
    assert!(!scan.scan_line(&None));
    assert!(!scan.scan_line(&Some(vec![
        Some("INFO x".to_owned()),
        Some("INFO".to_owned()),
        None,
    ])));
    let table = scan.finish();
    assert_eq!(table.columns, ["level", "group_2"]);
    assert_eq!(table.rows.as_ref(), &vec![vec!["INFO".to_owned(), String::new()]]);
    assert_eq!(table.scanned, 2);
    assert_eq!(table.matched, 1);
}

#[test]
fn matches_are_put_in_the_order_of_their_lines() {
    let found = |line: u64, text: &str| LineMatch {
        line,
        captures: vec![Some(format!("{text}!")), Some(text.to_owned())],
    };
    let table = table_of_matches(
        &vec![None, None],
        vec![found(9, "nine"), found(2, "two"), found(5, "five")],
        20,
        2,
    );
    assert_eq!(
        table.rows.as_ref(),
        &vec![vec!["two".to_owned()], vec!["five".to_owned()]]
    );
    assert_eq!(table.columns, ["group_1"]);
    assert_eq!(table.scanned, 20);
}

#[test]
fn unreadable_lines_are_left_out() {
    let chunks = vec![LineChunk {
        start_line: 0,
        lines: vec![Some("x1".to_owned()), None, Some("x3".to_owned())],
    }];
    let table = extract_text_source(&chunks, 3, r"x(\d)", &(0..3), 10);
    assert_eq!(table.rows.as_ref(), &vec![vec!["1".to_owned()], vec!["3".to_owned()]]);
    assert_eq!(table.scanned, 3);
}

#[test]
fn ranges_are_cut_to_the_source() {
    assert_eq!(clamp_range(&(2..9), 5), 2..5);
    assert_eq!(clamp_range(&(7..9), 5), 5..5);
    assert_eq!(clamp_range(&(1..3), 5), 1..3);
}

#[test]
fn ordinary_logs_without_a_pattern_give_no_table() {
    assert_eq!(plan_source("", "2024 plain"), SourcePlan::Nothing);
    assert_eq!(plan_source("", "  {\"a\":1}"), SourcePlan::Document);
    assert_eq!(plan_source(" x ", "{"), SourcePlan::Lines);
    let source = SourceText {
        prefix: "plain".to_owned(),
        document: "plain".to_owned(),
        chunks: Vec::new(),
        total_lines: 1,
    };
    assert_eq!(extract_source(&source, " ", None, 10), RecordTable::default());
    let json = SourceText {
        prefix: "[{\"k\"".to_owned(),
        document: "[{\"k\":null},{\"k\":\"v\"}]".to_owned(),
        chunks: Vec::new(),
        total_lines: 1,
    };
    let table = extract_source(&json, "", None, 10);
    assert_eq!(table.columns, ["k"]);
    assert_eq!(table.rows.as_ref(), &vec![vec![String::new()], vec!["v".to_owned()]]);
}

#[test]
fn a_single_object_is_one_row() {
    let table = extract_table("{\"b\":1.50,\"a\":\"x\",\"c\":[1,2]}", "", 100);
    assert_eq!(table.columns, ["a", "b", "c"]);
    assert_eq!(table.rows.as_ref(), &vec![vec!["x".to_owned(), "1.5".to_owned(), "[1,2]".to_owned()]]);
}

#[test]
fn a_copy_of_a_table_is_equal() {
    let table = extract_table("k=1\nk=2", r"k=(?P<k>\d)", 10);
    assert_eq!(table.clone(), table);
}

#[test]
fn json_values_of_every_kind_are_told_apart() {
    let members = r#"{"a":null,"b":false,"c":-2,"d":"t","e":[true,{"x":"y"}],"f":{"k":[]}}"#;
    let table = extract_table(members, "", 100);
    assert_eq!(table.columns, texts_of(&["a", "b", "c", "d", "e", "f"]));
    assert_eq!(
        table.rows[0],
        texts_of(&["", "false", "-2", "t", r#"[true,{"x":"y"}]"#, r#"{"k":[]}"#])
    );
    let table = extract_table(r#"[null,true,1,"s",[{"a":1}],{},{"a":1}]"#, "", 100);
    assert_eq!((table.scanned, table.matched), (7, 1));
    assert_eq!(table.rows[0], texts_of(&["1"]));
    for single in ["null", "true", "1", "\"s\"", "{}"] {
        let table = extract_table(single, "", 100);
        assert_eq!((table.scanned, table.matched), (1, 0));
    }
    let table = extract_table("[]", "", 100);
    assert_eq!((table.scanned, table.matched), (0, 0));
}

fn texts_of(items: &[&str]) -> Vec<String> {
    items.iter().map(|item| item.to_string()).collect()
}
