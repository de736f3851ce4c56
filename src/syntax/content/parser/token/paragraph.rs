use vstd::prelude::*;

use crate::syntax::content::{parser::lexeme::Lexeme, Parseable};
use crate::text::is_blank;
use super::{make_tag, tag};

verus! {

/// The opening or closing of a paragraph; `None` while the parser has not
/// decided which.
#[derive(Debug)]
pub struct Paragraph {
    pub open: Option<bool>,
}

impl Paragraph {
    pub fn new(open: bool) -> (r: Paragraph)
        ensures
            r.open == Some(open),
    {
        Paragraph { open: Some(open) }
    }
}

impl Parseable for Paragraph {
    /// Any text that is not whitespace; the parser knows the context.
    open spec fn probe_spec(text: Seq<char>, next: Seq<char>) -> bool {
        !is_blank(text)
    }

    open spec fn renderable(&self) -> bool {
        self.open is Some
    }

    open spec fn html(&self) -> Seq<char> {
        tag(seq!['p'], self.open->0)
    }

    fn probe(lexeme: &Lexeme) -> (r: bool) {
        !lexeme.is_whitespace()
    }

    fn lex(_lexeme: &Lexeme) -> (r: Paragraph)
        ensures
            r.open is None,
    {
        Paragraph { open: None }
    }

    fn render(&self) -> (r: String) {
        let open = self.open.unwrap();
        let r = make_tag("p", open);
        proof {
            reveal_strlit("p");
        }
        r
    }
}

} // verus!
