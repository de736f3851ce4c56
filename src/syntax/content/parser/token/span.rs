use vstd::prelude::*;

use crate::syntax::content::{parser::lexeme::Lexeme, Parseable};
use super::{make_tag, tag};

verus! {

/// The opening or closing of a span; `None` while the parser has not
/// decided which.
#[derive(Debug)]
pub struct Span {
    pub open: Option<bool>,
}

impl Span {
    pub fn new(open: bool) -> (r: Span)
        ensures
            r.open == Some(open),
    {
        Span { open: Some(open) }
    }
}

impl Parseable for Span {
    /// No lexeme opens a span.
    open spec fn probe_spec(text: Seq<char>, next: Seq<char>) -> bool {
        false
    }

    open spec fn renderable(&self) -> bool {
        self.open is Some
    }

    open spec fn html(&self) -> Seq<char> {
        tag(seq!['s', 'p', 'a', 'n'], self.open->0)
    }

    fn probe(_lexeme: &Lexeme) -> (r: bool) {
        false
    }

    fn lex(_lexeme: &Lexeme) -> (r: Span)
        ensures
            r.open is None,
    {
        Span { open: None }
    }

    fn render(&self) -> (r: String) {
        let open = self.open.unwrap();
        let r = make_tag("span", open);
        proof {
            reveal_strlit("span");
        }
        r
    }
}

} // verus!
