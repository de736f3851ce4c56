use en::syntax::content::parser::lexeme::Lexeme;
use en::syntax::content::parser::token::anchor::Anchor;
use en::syntax::content::parser::token::code::Code;
use en::syntax::content::parser::token::header::{Header, IdTable};
use en::syntax::content::parser::token::paragraph::Paragraph;
use en::syntax::content::parser::token::preformat::PreFormat;
use en::syntax::content::parser::token::span::Span;
use en::syntax::content::parser::token::Token;
use en::syntax::content::Parseable;
use en::types::Config;

#[test]
fn token_smoke() {}

#[test]
fn render_anchor() {
    let anchor = Anchor::new("AnchorText", "AnchorDest", true);
    assert_eq!(anchor.render(), r#"<a href="/node/AnchorDest">AnchorText</a>"#);
}

#[test]
fn code_render() {
    let code_open = Code::new(true);
    assert_eq!(code_open.render(), "<code>");

    let code_closed = Code::new(false);
    assert_eq!(code_closed.render(), "</code>");
}

#[test]
fn make_id() {
    let mut map = IdTable::new();
    let id = Header::make_id(&Config::default(), &Lexeme::new("##", "Title"), &mut map);
    assert_eq!(id, "Title");
}

#[test]
fn ascii_ids_set() {
    let config = Config { ascii_dom_ids: true, ..Config::default() };

    let id = Header::make_id(&config, &Lexeme::new("##", "駄目！"), &mut IdTable::new());
    assert_eq!(id, "h");
}

#[test]
fn ascii_ids_unset() {
    let config = Config { ascii_dom_ids: false, ..Config::default() };

    let id = Header::make_id(&config, &Lexeme::new("##", "駄目！"), &mut IdTable::new());
    assert_eq!(id, "駄目！");
}

#[test]
fn id_deduplication() {
    let mut map = IdTable::new();
    let config = Config::default();
    let id = Header::make_id(&config, &Lexeme::new("##", "UVrcCUjoQ"), &mut map);
    assert_eq!(id, "UVrcCUjoQ");

    let double = Header::make_id(&config, &Lexeme::new("##", "UVrcCUjoQ"), &mut map);
    assert_eq!(double, "UVrcCUjoQ-1");

    let double2 = Header::make_id(&config, &Lexeme::new("##", "UVrcCUjoQ"), &mut map);
    assert_eq!(double2, "UVrcCUjoQ-2");
}

#[test]
fn id_deduplication_past_nine() {
    let mut map = IdTable::new();
    let config = Config::default();
    let mut last = String::new();
    for _ in 0..12 {
        last = Header::make_id(&config, &Lexeme::new("#", "x"), &mut map);
    }
    assert_eq!(last, "x-11");
}

#[test]
fn get_level() {
    for l in 1..=6 {
        let header = Header::from_u8(l, true, None);
        assert_eq!(header.level(), l);
    }
}

#[test]
fn no_id_render() {
    let open_header = Header::from_u8(2, true, None);
    let closed_header = Header::from_u8(2, false, None);
    assert_eq!(open_header.render(), "<h2>");
    assert_eq!(closed_header.render(), "</h2>");
}

#[test]
fn header_with_id_render() {
    let header = Header::from_u8(3, true, Some("top"));
    assert_eq!(header.render(), r#"<h3 id="top">"#);
}

#[test]
fn header_lex_lowercases_identifier() {
    let header = Header::lex(&Lexeme::new("###", "MiXed"));
    assert_eq!(header.level(), 3);
    assert_eq!(header.dom_id, Some("mixed".to_string()));
}

#[test]
fn header_probe() {
    assert!(Header::probe(&Lexeme::new("######", " ")));
    assert!(!Header::probe(&Lexeme::new("#######", " ")));
    assert!(!Header::probe(&Lexeme::new("#a", " ")));
}

#[test]
fn paragraph_lex() {
    let p = Paragraph::lex(&Lexeme::new("", ""));
    assert!(p.open.is_none());
}

#[test]
fn paragraph_render() {
    assert_eq!(Paragraph::new(true).render(), "<p>");
    assert_eq!(Paragraph::new(false).render(), "</p>");
}

#[test]
fn preformat_lex() {
    let from_empty_lexeme = PreFormat::lex(&Lexeme::new("", ""));
    assert!(from_empty_lexeme.open.is_none());

    let from_non_empty_lexeme = PreFormat::lex(&Lexeme::new("`", "`"));
    assert!(from_non_empty_lexeme.open.is_none());
}

#[test]
fn preformat_probe() {
    assert!(PreFormat::probe(&Lexeme::new("`", "\n")));
    assert!(!PreFormat::probe(&Lexeme::new("`", " ")));
}

#[test]
fn probe() {
    assert!(!Span::probe(&Lexeme::new("1234567", "")));
}

#[test]
fn span_lex() {
    let span = Span::lex(&Lexeme::new("1234567", ""));
    assert!(span.open.is_none());
}

#[test]
fn span_render() {
    let open_span = Span::new(true);
    assert_eq!(open_span.render(), "<span>");

    let closed_span = Span::new(false);
    assert_eq!(closed_span.render(), "</span>");
}

#[test]
fn anchor_lex_is_unresolved() {
    let anchor = Anchor::lex(&Lexeme::new("|", "x"));
    assert!(anchor.destination.is_none());
}

#[test]
fn anchor_probe() {
    assert!(Anchor::probe(&Lexeme::new("|", "x")));
    assert!(Anchor::probe(&Lexeme::new("Word", "|")));
    assert!(!Anchor::probe(&Lexeme::new(" ", "|")));
}

#[test]
fn anchor_empty_destination_uses_text() {
    let anchor = Anchor { text: "Node".to_string(), destination: Some(String::new()), leading: true };
    assert_eq!(anchor.render(), r#"<a href="/node/Node">Node</a>"#);
}

#[test]
fn resolve_destination_kinds() {
    assert_eq!(Anchor::resolve_destination("a:b"), "a:b");
    assert_eq!(Anchor::resolve_destination("/x"), "/x");
    assert_eq!(Anchor::resolve_destination("Node"), "/node/Node");
}

#[test]
fn token_render_dispatch() {
    let t = Token::Code(Code::new(true));
    assert_eq!(t.render(), "<code>");
}

#[test]
fn lexeme_helpers() {
    let l = Lexeme::new("a b ab", "|");
    assert_eq!(l.count_char('a'), 2);
    assert_eq!(l.split_chars().len(), 6);
    assert_eq!(l.clone().split_words(), vec!["a", "b", "ab"]);
    assert_eq!(l.clone().first(), Some("a".to_string()));
    assert_eq!(l.text(), "a b ab");
    let segments = vec!["x".to_string(), " ".to_string(), "y".to_string()];
    let lexemes = Lexeme::collect(&segments);
    assert_eq!(lexemes.len(), 3);
    assert_eq!(lexemes[0].next, " ");
    assert_eq!(lexemes[2].next, "");
}
