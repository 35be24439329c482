use softrender::text::{read_index, reads_as_decimal, scan, split_lines, split_words, Class, Span};

fn whole(text: &[u8]) -> Span {
    Span { start: 0, end: text.len() }
}

fn spans(pairs: &[(usize, usize)]) -> Vec<Span> {
    pairs.iter().map(|p| Span { start: p.0, end: p.1 }).collect()
}

#[test]
fn scan_stops_at_the_first_byte_of_another_class() {
    let text = b"  \t12ab";
    assert_eq!(scan(text, 0, text.len(), Class::Blank), 3);
    assert_eq!(scan(text, 3, text.len(), Class::Digit), 5);
    assert_eq!(scan(text, 3, text.len(), Class::Word), 7);
    assert_eq!(scan(text, 3, text.len(), Class::Blank), 3);
}

#[test]
fn scan_stops_at_its_limit() {
    let text = b"12345";
    assert_eq!(scan(text, 1, 3, Class::Digit), 3);
    assert_eq!(scan(text, 2, 2, Class::Digit), 2);
    assert_eq!(scan(text, 5, 5, Class::Digit), 5);
}

#[test]
fn line_class_is_everything_but_the_line_feed() {
    let text = b"ab\r \ncd";
    assert_eq!(scan(text, 0, text.len(), Class::Line), 4);
    assert_eq!(scan(text, 5, text.len(), Class::Line), 7);
}

#[test]
fn words_are_runs_between_blanks() {
    let text = b"  f 1/2  3\t\x0b\x0c4\r";
    assert_eq!(split_words(text, 0, text.len()), spans(&[(2, 3), (4, 7), (9, 10), (13, 14)]));
}

#[test]
fn words_of_a_blank_or_empty_line() {
    assert!(split_words(b"", 0, 0).is_empty());
    assert!(split_words(b" \t \r", 0, 4).is_empty());
}

#[test]
fn words_stay_within_the_given_range() {
    let text = b"ab cd ef";
    assert_eq!(split_words(text, 1, 7), spans(&[(1, 2), (3, 5), (6, 7)]));
}

#[test]
fn lines_end_at_line_feeds() {
    assert_eq!(split_lines(b"ab\ncd"), spans(&[(0, 2), (3, 5)]));
    assert_eq!(split_lines(b"ab\n"), spans(&[(0, 2), (3, 3)]));
    assert_eq!(split_lines(b"\n\n"), spans(&[(0, 0), (1, 1), (2, 2)]));
    assert_eq!(split_lines(b""), spans(&[(0, 0)]));
    assert_eq!(split_lines(b"ab\r\ncd"), spans(&[(0, 3), (4, 6)]));
}

#[test]
fn decimals_are_recognised() {
    for good in [
        "0", "1", "-1", "+1", "12.5", "12.", ".5", "-.5", "+.5", "1e5", "1E5", "1e+5", "1e-5",
        "1.5e10", "1.e3", ".5E-3", "0.000001", "-0.0", "00012", "3.141592653589793238462643",
    ] {
        let text = good.as_bytes();
        assert!(reads_as_decimal(text, whole(text)), "{}", good);
        let parsed: Result<f32, _> = good.parse();
        assert!(parsed.is_ok(), "{}", good);
    }
}

#[test]
fn non_decimals_are_refused() {
    for bad in [
        "", "-", "+", ".", "-.", "e5", "1e", "1e+", "1e-", "1.5.2", "1,5", "abc", "1a", "a1",
        "--1", "+-1", "1e5.5", "1e5e5", "0x10", "1 ", " 1", "1/2", "inf", "nan", "NaN",
        "infinity", "-inf", "1f", "1_000", ".e5",
    ] {
        let text = bad.as_bytes();
        assert!(!reads_as_decimal(text, whole(text)), "{:?}", bad);
    }
}

#[test]
fn decimal_is_judged_on_its_span_only() {
    let text = b"v 1.5 x";
    assert!(reads_as_decimal(text, Span { start: 2, end: 5 }));
    assert!(!reads_as_decimal(text, Span { start: 2, end: 7 }));
    assert!(!reads_as_decimal(text, Span { start: 3, end: 3 }));
}

#[test]
fn indices_are_read() {
    for (word, expected) in [
        ("1", 1i64), ("12", 12), ("007", 7), ("-1", -1), ("-25", -25), ("+3", 3), ("0", 0),
        ("-0", 0), ("4/5", 4), ("4/5/6", 4), ("4//6", 4), ("4/", 4), ("-4/x", -4),
        ("9223372036854775807", i64::MAX), ("-9223372036854775807", -i64::MAX),
    ] {
        let text = word.as_bytes();
        assert_eq!(read_index(text, whole(text)), Some(expected), "{}", word);
    }
}

#[test]
fn words_that_spell_no_index_are_refused() {
    for word in [
        "", "-", "+", "/", "/1", "a", "1a", "a1", "1.5", "--1", "1 ", "-/1", "1e3",
        "9223372036854775808", "-9223372036854775808", "99999999999999999999999999",
    ] {
        let text = word.as_bytes();
        assert_eq!(read_index(text, whole(text)), None, "{:?}", word);
    }
}
