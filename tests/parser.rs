use en::syntax::content::parse;
use en::syntax::content::parser::token::header::Level;
use en::syntax::content::parser::{read, ParseError};
use en::types::Config;

fn render(text: &str) -> String {
    read(text, &Config::default()).unwrap()
}

#[test]
fn empty_render_is_empty() {
    assert_eq!(render(""), "");
}

#[test]
fn mixed_sample() {
    let en = "`this |test|` tries ## to |brea|k|: things";
    let html = r#"<p><code>this |test|</code> tries ## to <a href="/node/k">brea</a>: things</p>"#;

    assert_eq!(render(en), html);
}

#[test]
fn force_flanking() {
    assert_eq!(render("|Node||"), r#"<p><a href="/node/Node">Node</a></p>"#);
}

#[test]
fn flanking_with_trailing_pipe() {
    assert_eq!(
        render("|Node|Destination|"),
        r#"<p><a href="/node/Destination">Node</a></p>"#
    );
}

#[test]
fn nonleading_second_pipe() {
    assert_eq!(
        render("Go to Node|Destination|, here"),
        r#"<p>Go to <a href="/node/Destination">Node</a>, here</p>"#,
    );
}

#[test]
fn clear_anchor_buffer() {
    assert_eq!(
        render("|SomeAnchor|\n|SomeOtherAnchor|"),
        format!(
            "{}{}{}",
            r#"<p><a href="/node/SomeAnchor">SomeAnchor</a></p>"#,
            "\n",
            r#"<p><a href="/node/SomeOtherAnchor">SomeOtherAnchor</a></p>"#
        ),
    );
}

#[test]
fn end_with_open_header() {
    let result = read("# Title", &Config::default());
    assert_eq!(result, Err(ParseError::OpenHeader));
    assert_eq!(ParseError::OpenHeader.message(), "End of file with open header");
}

#[test]
fn end_with_open_preformat() {
    let result = read("`\nsome code\n", &Config::default());
    assert_eq!(result, Err(ParseError::OpenPreFormat));
    assert_eq!(ParseError::OpenPreFormat.message(), "End of file with open preformat");
}

#[test]
fn truncated_header_level() {
    let u: usize = 999;
    let level = Level::from(u);
    assert_eq!(level.to_string(), "6");
}

#[test]
fn display_level() {
    assert_eq!(Level::One.to_string(), "1");
    assert_eq!(Level::Two.to_string(), "2");
    assert_eq!(Level::Three.to_string(), "3");
    assert_eq!(Level::Four.to_string(), "4");
    assert_eq!(Level::Five.to_string(), "5");
    assert_eq!(Level::Six.to_string(), "6");
}

#[test]
fn parse_entry_point() {
    assert_eq!(parse("plain words", &Config::default()), Ok("<p>plain words</p>".to_string()));
}

#[test]
fn header_with_identifier() {
    assert_eq!(render("## Title\n"), "<h2 id=\"Title\"> Title</h2>\n");
}

#[test]
fn repeated_headers_are_deduplicated() {
    assert_eq!(
        render("# Same\n# Same\n# Same\n"),
        "<h1 id=\"Same\"> Same</h1>\n<h1 id=\"Same-1\"> Same</h1>\n<h1 id=\"Same-2\"> Same</h1>\n",
    );
}

#[test]
fn ascii_only_header_identifier() {
    let config = Config { ascii_dom_ids: true, ..Config::default() };
    assert_eq!(read("# 駄目\n", &config).unwrap(), "<h1 id=\"h\"> 駄目</h1>\n");
}

#[test]
fn preformat_is_literal() {
    assert_eq!(render("`\n|a| b\n`\n"), "<pre>\n|a| b\n</pre>\n");
}

#[test]
fn seven_hashes_are_text() {
    assert_eq!(render("####### x"), "<p>####### x</p>");
}

#[test]
fn absolute_destination_kept() {
    assert_eq!(
        render("see |Site|https://example.org| now"),
        r#"<p>see <a href="https://example.org">Site</a> now</p>"#,
    );
}

#[test]
fn stray_pipe_is_literal_in_code() {
    assert_eq!(render("`a | b`"), "<p><code>a | b</code></p>");
}

#[test]
fn nonleading_anchor_before_space() {
    assert_eq!(render("x Word|Dest here"), r#"<p>x <a href="/node/Dest">Word</a> here</p>"#);
}

#[test]
fn stray_pipe_is_literal() {
    assert_eq!(render("a | b"), "<p>a | b</p>");
}

#[test]
fn unmatched_backtick_is_literal() {
    assert_eq!(render("a ` b"), "<p>a ` b</p>");
}

#[test]
fn unmatched_backtick_ends_with_paragraph() {
    assert_eq!(render("a ` b\nc"), "<p>a ` b</p>\n<p>c</p>");
}

#[test]
fn unfinished_anchor_in_header_is_literal() {
    assert_eq!(render("# T |x\n"), "<h1 id=\"T\"> T |x</h1>\n");
}
