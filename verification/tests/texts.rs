use logd::text::{
    chars_of, decimal_text, joined, lines_of, pad_left, parse_number, split_at_char, split_once_at,
    text_of, text_precedes, to_lower_char, trimmed, white_space, words_of,
};

fn strings(parts: &[Vec<char>]) -> Vec<String> {
    parts.iter().map(text_of).collect()
}

#[test]
fn white_space_is_what_the_standard_says() {
    for c in (0..=0x10ffff).filter_map(char::from_u32) {
        assert_eq!(white_space(c), c.is_whitespace(), "{:?}", c);
        assert_eq!(to_lower_char(c), c.to_ascii_lowercase(), "{:?}", c);
    }
}

#[test]
fn trimming_and_splitting_agree_with_the_standard() {
    for sample in [
        "", " ", "a", "  a b  ", "a,b,,c", ",", "\u{3000}x\u{a0}", "one\ttwo  three\n", "a\r\nb\nc\r",
        "\n\n", "x\r\n",
    ] {
        let chars = chars_of(sample);
        assert_eq!(text_of(&trimmed(&chars)), sample.trim());
        assert_eq!(
            strings(&split_at_char(&chars, ',')),
            sample.split(',').collect::<Vec<_>>()
        );
        assert_eq!(
            strings(&words_of(&chars)),
            sample.split_whitespace().collect::<Vec<_>>()
        );
        assert_eq!(strings(&lines_of(&chars)), sample.lines().collect::<Vec<_>>());
        assert_eq!(text_of(&joined(&split_at_char(&chars, ','), ",")), sample);
    }
}

#[test]
fn numbers_read_and_write_as_the_standard_does() {
    for sample in ["0", "7", "007", "+5", "-5", "", "+", "18446744073709551615", "18446744073709551616", "1a", " 1"] {
        assert_eq!(parse_number(&chars_of(sample)), sample.parse::<u64>().ok(), "{}", sample);
    }
    for number in [0, 9, 10, 4096, u64::MAX] {
        assert_eq!(decimal_text(number), number.to_string());
    }
}

#[test]
fn texts_are_ordered_as_the_standard_does() {
    let samples = ["", "a", "ab", "b", "\u{e9}", "z", "\u{10000}", "\u{ffff}"];
    for a in samples {
        for b in samples {
            assert_eq!(text_precedes(a, b), a < b, "{:?} {:?}", a, b);
        }
    }
}

#[test]
fn a_text_is_split_once_at_its_first_mark() {
    let (before, after) = split_once_at(&chars_of("a=b=c"), '=').unwrap();
    assert_eq!((text_of(&before), text_of(&after)), ("a".to_owned(), "b=c".to_owned()));
    assert!(split_once_at(&chars_of("abc"), '=').is_none());
}

#[test]
fn short_texts_are_padded() {
    assert_eq!(pad_left("7", 4), "   7");
    assert_eq!(pad_left("12345", 4), "12345");
}
