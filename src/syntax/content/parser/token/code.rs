use vstd::prelude::*;

use crate::syntax::content::{parser::lexeme::Lexeme, Parseable};
use super::{make_tag, tag};

verus! {

/// The opening or closing of an inline code span; `None` while the parser
/// has not decided which.
#[derive(Debug)]
pub struct Code {
    pub open: Option<bool>,
}

impl Code {
    pub fn new(open: bool) -> (r: Code)
        ensures
            r.open == Some(open),
    {
        Code { open: Some(open) }
    }
}

impl Parseable for Code {
    /// A lone backtick.
    open spec fn probe_spec(text: Seq<char>, next: Seq<char>) -> bool {
        text == seq!['`']
    }

    open spec fn renderable(&self) -> bool {
        self.open is Some
    }

    open spec fn html(&self) -> Seq<char> {
        tag(seq!['c', 'o', 'd', 'e'], self.open->0)
    }

    fn probe(lexeme: &Lexeme) -> (r: bool) {
        lexeme.text_is('`')
    }

    fn lex(_lexeme: &Lexeme) -> (r: Code)
        ensures
            r.open is None,
    {
        Code { open: None }
    }

    fn render(&self) -> (r: String) {
        let open = self.open.unwrap();
        let r = make_tag("code", open);
        proof {
            reveal_strlit("code");
        }
        r
    }
}

} // verus!
