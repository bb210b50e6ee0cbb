use cms::{parse, read_line, unexpected_line, LineKind, ParseError, Timestamp};

const HELLO: &str = "---\ntitle: hello-world\ndate published: 01/01/2024 09:00\n---\n# h1 title\na paragraph";

fn nine_am() -> Timestamp {
    Timestamp { year: 2024, month: 1, day: 1, hour: 9, minute: 0 }
}

#[test]
fn parses_well_formed_document() {
    let post = parse(HELLO).unwrap();
    assert_eq!(post.title, "hello-world");
    assert_eq!(post.published, nine_am());
    assert_eq!(post.content, "# h1 title\na paragraph");
}

#[test]
fn round_trip_keeps_title_date_and_body() {
    let body = "line one\n\n  indented\nlast line without newline";
    let text = format!("-----\ntitle: my_post-2\ndate published: 29/02/2024 23:59\n-----\n{}", body);
    let post = parse(&text).unwrap();
    assert_eq!(post.title, "my_post-2");
    assert_eq!(post.published, Timestamp { year: 2024, month: 2, day: 29, hour: 23, minute: 59 });
    assert_eq!(post.content, body);
}

#[test]
fn body_is_kept_verbatim_with_newlines() {
    let text = "---\ntitle: a\ndate published: 01/01/2024 09:00\n---\n\n\n  x \n";
    assert_eq!(parse(text).unwrap().content, "\n\n  x \n");
}

#[test]
fn empty_body_parses() {
    let text = "---\ntitle: a\ndate published: 01/01/2024 09:00\n---\n";
    let post = parse(text).unwrap();
    assert_eq!(post.content, "");
}

#[test]
fn missing_opening_delimiter_is_format_error() {
    let text = "title: a\ndate published: 01/01/2024 09:00\n---\nbody";
    match parse(text) {
        Err(ParseError::Format { expected, found }) => {
            assert_eq!(expected, LineKind::OpeningDelimiter);
            assert_eq!(found, "title: a");
        }
        other => panic!("unexpected result {:?}", other),
    }
}

#[test]
fn missing_closing_delimiter_is_format_error() {
    let text = "---\ntitle: a\ndate published: 01/01/2024 09:00\nbody text\n";
    match parse(text) {
        Err(ParseError::Format { expected, found }) => {
            assert_eq!(expected, LineKind::ClosingDelimiter);
            assert_eq!(found, "body text");
        }
        other => panic!("unexpected result {:?}", other),
    }
}

#[test]
fn two_dashes_are_no_delimiter() {
    let text = "--\ntitle: a\ndate published: 01/01/2024 09:00\n---\n";
    assert!(matches!(parse(text), Err(ParseError::Format { expected: LineKind::OpeningDelimiter, .. })));
}

#[test]
fn bad_title_is_format_error() {
    for line in ["title: two words", "title:nospace", "title: ", "titles: a", "title: caf\u{e9}"] {
        let text = format!("---\n{}\ndate published: 01/01/2024 09:00\n---\n", line);
        match parse(&text) {
            Err(ParseError::Format { expected, found }) => {
                assert_eq!(expected, LineKind::Title);
                assert_eq!(found, line);
            }
            other => panic!("unexpected result {:?} for {}", other, line),
        }
    }
}

#[test]
fn title_after_several_spaces() {
    let text = "---\ntitle:    spaced\ndate published:   01/01/2024 09:00\n---\n";
    let post = parse(text).unwrap();
    assert_eq!(post.title, "spaced");
}

#[test]
fn missing_date_field_is_format_error() {
    let text = "---\ntitle: a\npublished: 01/01/2024 09:00\n---\n";
    assert!(matches!(parse(text), Err(ParseError::Format { expected: LineKind::DatePublished, .. })));
}

#[test]
fn wrong_date_separators_are_date_error() {
    let text = "---\ntitle: a\ndate published: 2024-01-01 10:00\n---\n";
    match parse(text) {
        Err(ParseError::Date { found }) => assert_eq!(found, "2024-01-01 10:00"),
        other => panic!("unexpected result {:?}", other),
    }
}

#[test]
fn impossible_date_is_date_error() {
    let text = "---\ntitle: a\ndate published: 31/02/2024 10:00\n---\n";
    assert!(matches!(parse(text), Err(ParseError::Date { .. })));
}

#[test]
fn slashed_date_reads_to_the_minute() {
    let text = "---\ntitle: a\ndate published: 01/01/2024 10:00\n---\n";
    let post = parse(text).unwrap();
    assert_eq!(post.published, Timestamp { year: 2024, month: 1, day: 1, hour: 10, minute: 0 });
}

#[test]
fn empty_input_is_unexpected_end() {
    assert!(matches!(parse(""), Err(ParseError::UnexpectedEndOfInput)));
}

#[test]
fn header_cut_short_is_unexpected_end() {
    let text = "---\ntitle: a\ndate published: 01/01/2024 09:00\n";
    assert!(matches!(parse(text), Err(ParseError::UnexpectedEndOfInput)));
}

#[test]
fn read_line_finds_line_and_next_start() {
    let text = "ab\ncd";
    assert_eq!(read_line(text, 5, 0), Some((2, 3)));
    assert_eq!(read_line(text, 5, 3), None);
    assert_eq!(read_line(text, 5, 5), None);
    assert_eq!(read_line("ab\n", 3, 0), Some((2, 3)));
}

#[test]
fn unexpected_line_carries_line() {
    match unexpected_line(LineKind::Title, "oops") {
        ParseError::Format { expected, found } => {
            assert_eq!(expected, LineKind::Title);
            assert_eq!(found, "oops");
        }
        other => panic!("unexpected result {:?}", other),
    }
}

#[test]
fn closing_delimiter_without_newline_is_unexpected_end() {
    for last in ["----", "---x", "---"] {
        let text = format!("---\ntitle: a\ndate published: 01/01/2024 09:00\n{}", last);
        assert!(matches!(parse(&text), Err(ParseError::UnexpectedEndOfInput)), "{}", last);
    }
}

#[test]
fn loose_dates_are_date_errors() {
    for value in ["1/1/2024 9:00", "01/01/2024 10:00:30", "01/01/2024 24:00", "01/13/2024 10:00"] {
        let text = format!("---\ntitle: a\ndate published: {}\n---\n", value);
        match parse(&text) {
            Err(ParseError::Date { found }) => assert_eq!(found, value),
            other => panic!("unexpected result {:?} for {}", other, value),
        }
    }
}

#[test]
fn leap_day_only_in_leap_years() {
    let text = "---\ntitle: a\ndate published: 29/02/2023 10:00\n---\n";
    assert!(matches!(parse(text), Err(ParseError::Date { .. })));
    let text = "---\ntitle: a\ndate published: 29/02/2000 10:00\n---\n";
    assert_eq!(parse(text).unwrap().published.day, 29);
}

#[test]
fn error_messages_name_expected_and_found() {
    let e = parse("---\ntitle: a\ndate published: 2024-01-01 10:00\n---\n").unwrap_err();
    assert_eq!(e.message(), "failed to parse date, expected %d/%m/%Y %H:%M, found 2024-01-01 10:00");
    let e = parse("x\n").unwrap_err();
    assert_eq!(e.message(), "expected line to be 'dashes 1', found 'x'");
    assert_eq!(parse("").unwrap_err().message(), "unexpected end of input");
    assert_eq!(LineKind::Title.as_text(), "title: {any title}");
}
