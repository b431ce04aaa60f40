use logd::search::{
    parse_search_expression, search_questions, Acceptance, AcceptedTerms, CatalogItem, SearchBox,
    SearchExpression, MAX_SEARCH_HISTORY, SUGGESTION_LIMIT,
};
use logd::text::group;

/// Reads an expression with an engine that knows some times and fields.
fn read(value: &str, times: &[&str], fields: &[&str]) -> SearchExpression {
    let asked = search_questions(value);
    let accepted = AcceptedTerms {
        times: asked
            .times
            .into_iter()
            .filter(|time| times.contains(&time.as_str()))
            .collect(),
        fields: asked
            .fields
            .into_iter()
            .filter(|field| fields.contains(&field.as_str()))
            .collect(),
    };
    parse_search_expression(value, &accepted)
}

fn texts(items: &[&str]) -> Vec<String> {
    items.iter().map(|item| item.to_string()).collect()
}

#[test]
fn groups_thousands() {
    assert_eq!(group(0), "0");
    assert_eq!(group(999), "999");
    assert_eq!(group(1000), "1,000");
    assert_eq!(group(500_000_000), "500,000,000");
}

#[test]
fn groups_the_largest_number() {
    assert_eq!(group(u64::MAX), "18,446,744,073,709,551,615");
    assert_eq!(group(1_234_567), "1,234,567");
}

#[test]
fn parses_and_or_search_expression() {
    assert_eq!(
        read("  first & second | third||  ", &[], &[]),
        SearchExpression {
            keywords: vec!["first".into(), "second".into(), "third".into()],
            query: "(\"first\" and \"second\") or \"third\"".into(),
        }
    );
    assert_eq!(
        read(" | ", &[], &[]),
        SearchExpression {
            keywords: Vec::new(),
            query: String::new(),
        }
    );
}

#[test]
fn parses_time_range_search_expression() {
    assert_eq!(
        read(
            "t:05-09 21:41:07:788638188 05-09 21:41:08:001129178",
            &["05-09 21:41:07:788638188", "05-09 21:41:08:001129178"],
            &[],
        ),
        SearchExpression {
            keywords: Vec::new(),
            query: "(time>=\"05-09 21:41:07:788638188\" and \
                    time<=\"05-09 21:41:08:001129178\")"
                .into(),
        }
    );
}

#[test]
fn parses_dot_millisecond_time_range_search_expression() {
    assert_eq!(
        read(
            "t:06-17 04:18:19.809 06-17 04:28:39.571",
            &["06-17 04:18:19.809", "06-17 04:28:39.571"],
            &[],
        ),
        SearchExpression {
            keywords: Vec::new(),
            query: "(time>=\"06-17 04:18:19.809\" and \
                    time<=\"06-17 04:28:39.571\")"
                .into(),
        }
    );
}

#[test]
fn parses_open_ended_time_search_expression() {
    assert_eq!(
        read(
            "t:05-09 21:41:08:001129178",
            &["05-09 21:41:08:001129178"],
            &[],
        ),
        SearchExpression {
            keywords: Vec::new(),
            query: "time>=\"05-09 21:41:08:001129178\"".into(),
        }
    );
}

#[test]
fn combines_time_and_text_search_terms() {
    assert_eq!(
        read(
            "error & t:05-09 21:41:08:001129178",
            &["05-09 21:41:08:001129178"],
            &[],
        ),
        SearchExpression {
            keywords: vec!["error".into()],
            query: "(\"error\" and time>=\"05-09 21:41:08:001129178\")".into(),
        }
    );
}

#[test]
fn search_expression_quotes_literal_query_syntax() {
    assert_eq!(
        read(r#"say "hi" & C:\logs"#, &[], &[]).query,
        r#"("say \"hi\"" and "C:\\logs")"#
    );
}

#[test]
fn search_expression_preserves_field_completion_syntax() {
    assert_eq!(
        read(
            "tag:AeAlgo & level=W",
            &[],
            &["tag:AeAlgo", "level=W"],
        ),
        SearchExpression {
            keywords: Vec::new(),
            query: "(tag:AeAlgo and level=W)".into(),
        }
    );
}

#[test]
fn an_unknown_time_is_looked_for_as_text() {
    assert_eq!(
        read("t:soon", &[], &[]),
        SearchExpression {
            keywords: vec!["t:soon".into()],
            query: "\"t:soon\"".into(),
        }
    );
}

fn search_box(history: &[&str]) -> SearchBox {
    SearchBox {
        history: texts(history),
        suggestions: Vec::new(),
        open: false,
        index: None,
    }
}

fn item(score: i64, expression: &str) -> CatalogItem {
    CatalogItem {
        score,
        expression: expression.to_string(),
    }
}

#[test]
fn a_blank_value_suggests_the_history_without_opening() {
    let mut search = search_box(&["b", "a"]);
    search.refresh_search_suggestions("  ", &Vec::new(), &Vec::new());
    assert_eq!(search.suggestions, texts(&["b", "a"]));
    assert!(!search.open);
    assert_eq!(search.index, None);
}

#[test]
fn suggestions_rank_by_place_score_tab_and_text() {
    let mut search = search_box(&["tag:zebra", "none", "tag:one"]);
    let catalogs = vec![
        vec![item(5, "tag:one"), item(0, "tag:two")],
        vec![item(1, "tag:three"), item(0, "tag:one")],
    ];
    let scores = vec![Some(2), None, Some(1)];
    search.refresh_search_suggestions("tag", &catalogs, &scores);
    assert_eq!(
        search.suggestions,
        texts(&["tag:three", "tag:one", "tag:two", "tag:zebra"])
    );
    assert!(search.open);
}

#[test]
fn suggestions_are_limited() {
    let mut search = search_box(&[]);
    let many = (0..100)
        .map(|index| item(0, &format!("field{index}")))
        .collect::<Vec<_>>();
    search.refresh_search_suggestions("f", &vec![many], &Vec::new());
    assert_eq!(search.suggestions.len(), SUGGESTION_LIMIT);
    assert_eq!(SUGGESTION_LIMIT, 16);
}

#[test]
fn an_unfinished_comparison_goes_on() {
    let mut search = search_box(&[]);
    search.open = true;
    assert_eq!(search.accept_search_value("tag:"), Acceptance::Continue);
    assert!(search.open);
    assert_eq!(search.accept_search_value("level="), Acceptance::Continue);
    assert_eq!(search.accept_search_value("tag:a"), Acceptance::Search);
    assert!(!search.open);
    assert_eq!(search.accept_search_value(""), Acceptance::Search);
}

#[test]
fn the_choice_stays_within_the_suggestions() {
    let mut search = search_box(&["a", "b"]);
    search.move_search_suggestion(true);
    assert_eq!(search.index, None);
    search.refresh_search_suggestions("", &Vec::new(), &Vec::new());
    search.move_search_suggestion(false);
    assert_eq!(search.index, Some(1));
    search.move_search_suggestion(true);
    assert_eq!(search.index, Some(1));
    search.move_search_suggestion(false);
    search.move_search_suggestion(false);
    assert_eq!(search.index, Some(0));
    assert!(search.open);
}

#[test]
fn remembered_searches_stand_first_and_once() {
    let mut search = search_box(&["a", "b", "c"]);
    search.remember_search("b");
    assert_eq!(search.history, texts(&["b", "a", "c"]));
    for index in 0..30 {
        search.remember_search(&format!("query {index}"));
    }
    assert_eq!(search.history.len(), MAX_SEARCH_HISTORY);
    assert_eq!(search.history[0], "query 29");
    search.clear_search_history();
    assert!(search.history.is_empty());
}

#[test]
fn what_is_entered_is_the_choice_or_what_was_typed() {
    let mut search = SearchBox {
        history: Vec::new(),
        suggestions: texts(&["tag:Wifi", "tag:Bluetooth"]),
        open: true,
        index: None,
    };
    assert_eq!(search.entered("tag:"), "tag:");
    search.index = Some(1);
    assert_eq!(search.entered("tag:"), "tag:Bluetooth");
    search.index = Some(2);
    assert_eq!(search.entered("tag:"), "tag:");
}

#[test]
fn a_bar_joins_what_both_sides_ask_for() {
    let times = ["12:00"];
    let fields = ["level=error"];
    let sides = ["one & level=error", " two|t:12:00 ", " ", "", "\"a\" & & b|", "| &"];
    for a in sides {
        for b in sides {
            let first = read(a, &times, &fields);
            let second = read(b, &times, &fields);
            let both = read(&format!("{a}|{b}"), &times, &fields);
            let keywords = [first.keywords, second.keywords].concat();
            assert_eq!(both.keywords, keywords);
            let query = match (first.query.is_empty(), second.query.is_empty()) {
                (_, true) => first.query,
                (true, _) => second.query,
                _ => format!("{} or {}", first.query, second.query),
            };
            assert_eq!(both.query, query);
        }
    }
    assert_eq!(read("one|two", &[], &[]).query, "\"one\" or \"two\"");
}

#[test]
fn keywords_are_single_terms() {
    let read = read("  one two & | x&&level=error | a ", &[], &["level=error"]);
    assert_eq!(read.keywords, texts(&["one two", "x", "a"]));
    for keyword in &read.keywords {
        assert!(!keyword.is_empty() && keyword.trim() == keyword);
        assert!(!keyword.contains('|') && !keyword.contains('&'));
    }
    assert!(parse_search_expression(" | & ", &search_questions("")).query.is_empty());
}
