//! The tokens that the parser emits, and what each renders to.

use vstd::prelude::*;

use crate::syntax::content::Parseable;

pub mod anchor;
pub mod code;
pub mod header;
pub mod linebreak;
pub mod literal;
pub mod paragraph;
pub mod preformat;
pub mod span;

verus! {

/// One emitted unit of the document.
#[derive(Debug)]
pub enum Token {
    Anchor(anchor::Anchor),
    Code(code::Code),
    Header(header::Header),
    LineBreak(linebreak::LineBreak),
    Literal(literal::Literal),
    Paragraph(paragraph::Paragraph),
    PreFormat(preformat::PreFormat),
    Span(span::Span),
}

/// What a token holds, as mathematical values.
pub enum TokenView {
    Anchor { text: Seq<char>, destination: Option<Seq<char>> },
    Code { open: Option<bool> },
    Header { level: nat, open: Option<bool>, id: Option<Seq<char>> },
    LineBreak,
    Literal { text: Seq<char> },
    Paragraph { open: Option<bool> },
    PreFormat { open: Option<bool> },
    Span { open: Option<bool> },
}

/// `<` name `>` or `</` name `>`.
pub open spec fn tag(name: Seq<char>, open: bool) -> Seq<char> {
    if open {
        seq!['<'] + name + seq!['>']
    } else {
        seq!['<', '/'] + name + seq!['>']
    }
}

/// A destination with `:` or `/` is kept as it is; any other names a node.
pub open spec fn resolved_destination(raw: Seq<char>) -> Seq<char> {
    if raw.contains(':') || raw.contains('/') {
        raw
    } else {
        seq!['/', 'n', 'o', 'd', 'e', '/'] + raw
    }
}

pub open spec fn anchor_html(text: Seq<char>, destination: Seq<char>) -> Seq<char> {
    let target = if destination.len() == 0 {
        text
    } else {
        destination
    };
    seq!['<', 'a', ' ', 'h', 'r', 'e', 'f', '=', '"'] + resolved_destination(target) + seq![
        '"',
        '>',
    ] + text + seq!['<', '/', 'a', '>']
}

pub open spec fn header_html(level: nat, open: bool, id: Option<Seq<char>>) -> Seq<char> {
    let name = seq!['h'] + crate::text::decimal(level);
    if open && id is Some {
        seq!['<'] + name + seq![' ', 'i', 'd', '=', '"'] + id->0 + seq!['"', '>']
    } else {
        tag(name, open)
    }
}

/// A token whose open state, or destination, is known.
pub open spec fn token_renderable(t: TokenView) -> bool {
    match t {
        TokenView::Anchor { destination, .. } => destination is Some,
        TokenView::Code { open } => open is Some,
        TokenView::Header { open, .. } => open is Some,
        TokenView::LineBreak => true,
        TokenView::Literal { .. } => true,
        TokenView::Paragraph { open } => open is Some,
        TokenView::PreFormat { open } => open is Some,
        TokenView::Span { open } => open is Some,
    }
}

/// The HTML of a renderable token.
pub open spec fn token_html(t: TokenView) -> Seq<char> {
    match t {
        TokenView::Anchor { text, destination } => anchor_html(text, destination->0),
        TokenView::Code { open } => tag(seq!['c', 'o', 'd', 'e'], open->0),
        TokenView::Header { level, open, id } => header_html(level, open->0, id),
        TokenView::LineBreak => seq!['\n'],
        TokenView::Literal { text } => text,
        TokenView::Paragraph { open } => tag(seq!['p'], open->0),
        TokenView::PreFormat { open } => tag(seq!['p', 'r', 'e'], open->0),
        TokenView::Span { open } => tag(seq!['s', 'p', 'a', 'n'], open->0),
    }
}

/// The HTML of a token sequence: the renders of its tokens, one after another.
pub open spec fn document_html(ts: Seq<TokenView>) -> Seq<char>
    decreases ts.len(),
{
    if ts.len() == 0 {
        Seq::empty()
    } else {
        document_html(ts.drop_last()) + token_html(ts.last())
    }
}

pub open spec fn all_renderable(ts: Seq<TokenView>) -> bool {
    forall|i: int| 0 <= i < ts.len() ==> token_renderable(#[trigger] ts[i])
}

impl View for Token {
    type V = TokenView;

    open spec fn view(&self) -> TokenView {
        match self {
            Token::Anchor(a) => TokenView::Anchor {
                text: a.text@,
                destination: match a.destination {
                    Some(d) => Some(d@),
                    None => None,
                },
            },
            Token::Code(c) => TokenView::Code { open: c.open },
            Token::Header(h) => TokenView::Header {
                level: h.level.number(),
                open: h.open,
                id: match h.dom_id {
                    Some(d) => Some(d@),
                    None => None,
                },
            },
            Token::LineBreak(_) => TokenView::LineBreak,
            Token::Literal(l) => TokenView::Literal { text: l.text@ },
            Token::Paragraph(p) => TokenView::Paragraph { open: p.open },
            Token::PreFormat(p) => TokenView::PreFormat { open: p.open },
            Token::Span(s) => TokenView::Span { open: s.open },
        }
    }
}

impl Token {
    pub fn render(&self) -> (r: String)
        requires
            token_renderable(self@),
        ensures
            r@ == token_html(self@),
    {
        match self {
            Token::Anchor(d) => d.render(),
            Token::Code(d) => d.render(),
            Token::Header(d) => d.render(),
            Token::LineBreak(d) => d.render(),
            Token::Literal(d) => d.render(),
            Token::Paragraph(d) => d.render(),
            Token::PreFormat(d) => d.render(),
            Token::Span(d) => d.render(),
        }
    }
}

/// Builds the text `<name>` or `</name>`.
pub fn make_tag(name: &str, open: bool) -> (r: String)
    ensures
        r@ == tag(name@, open),
{
    let mut out = if open {
        "<".to_owned()
    } else {
        "</".to_owned()
    };
    proof {
        reveal_strlit("<");
        reveal_strlit("</");
    }
    out.append(name);
    out.append(">");
    proof {
        reveal_strlit(">");
    }
    assert(out@ =~= tag(name@, open));
    out
}

} // verus!
