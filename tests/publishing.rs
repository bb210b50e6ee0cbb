use cms::{
    empty_post_warning, html_file_name, is_renderable, new_post_text, parse, publish,
    publish_document, ParseError, PublishError, SourceDocument, Timestamp,
};

fn source(name: &str, text: &str) -> SourceDocument {
    SourceDocument { file_name: name.to_string(), text: text.to_string() }
}

fn now() -> Timestamp {
    Timestamp { year: 2026, month: 10, day: 19, hour: 8, minute: 5 }
}

#[test]
fn new_post_text_layout() {
    let text = new_post_text("hello-world", now());
    assert_eq!(
        text,
        "------------------\ntitle: hello-world\ndate published: 19/10/2026 08:05\n------------------\n"
    );
}

#[test]
fn new_empty_post() {
    let text = new_post_text("hello-world", now());
    let post = parse(&text).unwrap();
    assert_eq!(post.title.as_str(), "hello-world");
    assert_eq!(post.published, now());
    assert_eq!(post.content.is_empty(), true);
}

#[test]
fn publish_empty_post() {
    let text = new_post_text("hello-world", now());
    let publication = publish(&vec![source("hello-world.md", &text)]).unwrap();
    assert_eq!(publication.artifacts.len(), 1);
    assert_eq!(publication.artifacts[0].file_name, "hello-world.html");
    let buf = publication.artifacts[0].html.as_bytes();
    assert_eq!(buf.len(), 1);
    assert_eq!(buf[0], b'\n');
    assert_eq!(publication.summary.published, 1);
    assert_eq!(publication.summary.warnings, vec!["post 'hello-world.md' is empty".to_string()]);
}

#[test]
fn publish_html_conversion() {
    let mut text = new_post_text("hello-world", now());
    text.push_str("\n# h1 title\na paragraph");
    let publication = publish(&vec![source("hello-world.md", &text)]).unwrap();
    assert_eq!(publication.artifacts[0].file_name, "hello-world.html");
    assert_eq!(
        publication.artifacts[0].html.trim(),
        "<h1 id='h1_title'>h1 title</h1>\n\n<p>a paragraph</p>"
    );
}

#[test]
fn publish_hello_world_scenario() {
    let text = "---\ntitle: hello-world\ndate published: 01/01/2024 09:00\n---\n# h1 title\na paragraph";
    let publication = publish(&vec![source("hello-world.md", text)]).unwrap();
    assert_eq!(publication.summary.published, 1);
    assert!(publication.summary.warnings.is_empty());
    assert_eq!(publication.artifacts[0].file_name, "hello-world.html");
    let html = &publication.artifacts[0].html;
    let h1 = html.find("<h1 id='h1_title'>h1 title</h1>").unwrap();
    let p = html.find("<p>a paragraph</p>").unwrap();
    assert!(h1 < p);
}

#[test]
fn publishing_twice_gives_identical_artifacts() {
    let sources = vec![
        source("a.md", "---\ntitle: a\ndate published: 01/01/2024 09:00\n---\n# A\ntext"),
        source("b.md", "---\ntitle: b\ndate published: 02/01/2024 09:00\n---\n"),
    ];
    let first = publish(&sources).unwrap();
    let second = publish(&sources).unwrap();
    assert_eq!(first.artifacts.len(), 2);
    for (x, y) in first.artifacts.iter().zip(second.artifacts.iter()) {
        assert_eq!(x.file_name, y.file_name);
        assert_eq!(x.html, y.html);
    }
    assert_eq!(first.summary.warnings, second.summary.warnings);
    assert_eq!(first.summary.warnings, vec!["post 'b.md' is empty".to_string()]);
}

#[test]
fn publish_stops_at_first_bad_document() {
    let sources = vec![
        source("a.md", "---\ntitle: a\ndate published: 01/01/2024 09:00\n---\nok"),
        source("b.md", "no header\n"),
        source("c.md", ""),
    ];
    assert!(matches!(publish(&sources), Err(PublishError::Parse(ParseError::Format { .. }))));
}

#[test]
fn publish_of_nothing_is_empty() {
    let publication = publish(&vec![]).unwrap();
    assert_eq!(publication.summary.published, 0);
    assert!(publication.artifacts.is_empty());
}

#[test]
fn markdown_body_is_rendered() {
    let text = "---\ntitle: a\ndate published: 01/01/2024 09:00\n---\nplain words";
    let publication = publish(&vec![source("a.md", text)]).unwrap();
    assert_eq!(publication.artifacts[0].html, "<p>plain words</p>\n");
}

#[test]
fn artifact_names_replace_extension() {
    assert_eq!(html_file_name("hello-world.md"), "hello-world.html");
    assert_eq!(html_file_name("README"), "README.html");
    assert_eq!(html_file_name(".hidden"), ".hidden.html");
    assert_eq!(html_file_name("a.b.md"), "a.b.html");
    assert_eq!(html_file_name("x."), "x.html");
}

#[test]
fn warning_names_the_post() {
    assert_eq!(empty_post_warning("x.md"), "post 'x.md' is empty");
}

#[test]
fn exactly_one_warning_for_the_one_empty_post() {
    let sources = vec![
        source("a.md", "---\ntitle: a\ndate published: 01/01/2024 09:00\n---\ntext"),
        source("empty.md", "---\ntitle: e\ndate published: 01/01/2024 09:00\n---\n"),
        source("c.md", "---\ntitle: c\ndate published: 01/01/2024 09:00\n---\nmore"),
    ];
    let publication = publish(&sources).unwrap();
    assert_eq!(publication.summary.published, 3);
    assert_eq!(publication.summary.warnings, vec!["post 'empty.md' is empty".to_string()]);
}

#[test]
fn fence_after_wide_character_is_refused() {
    let body = "ab\u{65e5}```";
    assert!(!is_renderable(body));
    let text = format!("---\ntitle: a\ndate published: 01/01/2024 09:00\n---\n{}", body);
    match publish_document(&source("a.md", &text)) {
        Err(e @ PublishError::Unrenderable { .. }) => {
            assert_eq!(e.message(), "post 'a.md' holds text that the Markdown renderer cannot take");
        }
        other => panic!("unexpected result {:?}", other),
    }
}

#[test]
fn wide_space_before_quote_is_rendered() {
    let body = "[a](b\u{a0}\"t\")";
    assert!(is_renderable(body));
    let text = format!("---\ntitle: a\ndate published: 01/01/2024 09:00\n---\n{}", body);
    assert!(publish_document(&source("a.md", &text)).is_ok());
}

#[test]
fn fence_after_three_byte_character_is_rendered() {
    for body in ["\u{65e5}```", "voil\u{e0} ```x```", "\u{65e5}\u{672c}\u{8a9e} ```"] {
        assert!(is_renderable(body), "{}", body);
        let text = format!("---\ntitle: a\ndate published: 01/01/2024 09:00\n---\n{}", body);
        assert!(publish_document(&source("a.md", &text)).is_ok(), "{}", body);
    }
}

#[test]
fn empty_list_item_is_refused() {
    for body in ["- ", "* ", "+ ", "1. ", "1 ", "a. ", "> - ", "- \n\n", "text\n  - \r\nmore"] {
        assert!(!is_renderable(body), "{:?}", body);
        let text = format!("---\ntitle: a\ndate published: 01/01/2024 09:00\n---\n{}", body);
        assert!(
            matches!(publish_document(&source("a.md", &text)), Err(PublishError::Unrenderable { .. })),
            "{:?}",
            body
        );
    }
}

#[test]
fn list_items_with_content_are_rendered() {
    let text = "---\ntitle: a\ndate published: 01/01/2024 09:00\n---\n- one\n-  \n1. two";
    assert!(publish_document(&source("a.md", text)).is_ok());
}

#[test]
fn wide_characters_elsewhere_are_rendered() {
    assert!(is_renderable("\u{65e5}\u{672c}\n```\ncode\n```"));
    let text = "---\ntitle: a\ndate published: 01/01/2024 09:00\n---\n\u{65e5}\u{672c}";
    let done = publish_document(&source("a.md", text)).unwrap();
    assert_eq!(done.artifact.html, "<p>\u{65e5}\u{672c}</p>\n");
    assert!(done.warning.is_none());
}
