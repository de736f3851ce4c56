use vstd::prelude::*;

use crate::syntax::content::{parser::lexeme::{starts_with, Lexeme}, Parseable};
use super::{make_tag, tag};

verus! {

/// The opening or closing of a preformatted block; `None` while the parser
/// has not decided which.
#[derive(Debug)]
pub struct PreFormat {
    pub open: Option<bool>,
}

impl PreFormat {
    pub fn new(open: bool) -> (r: PreFormat)
        ensures
            r.open == Some(open),
    {
        PreFormat { open: Some(open) }
    }
}

impl Parseable for PreFormat {
    /// A backtick followed by a line break.
    open spec fn probe_spec(text: Seq<char>, next: Seq<char>) -> bool {
        starts_with(text, '`') && next == seq!['\n']
    }

    open spec fn renderable(&self) -> bool {
        self.open is Some
    }

    open spec fn html(&self) -> Seq<char> {
        tag(seq!['p', 'r', 'e'], self.open->0)
    }

    fn probe(lexeme: &Lexeme) -> (r: bool) {
        lexeme.match_first_char('`') && lexeme.next_is('\n')
    }

    fn lex(_lexeme: &Lexeme) -> (r: PreFormat)
        ensures
            r.open is None,
    {
        PreFormat { open: None }
    }

    fn render(&self) -> (r: String) {
        let open = self.open.unwrap();
        let r = make_tag("pre", open);
        proof {
            reveal_strlit("pre");
        }
        r
    }
}

} // verus!
