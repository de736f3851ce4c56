use vstd::prelude::*;

use crate::syntax::content::{parser::lexeme::Lexeme, Parseable};

verus! {

/// Text that renders as it is.
#[derive(Debug)]
pub struct Literal {
    pub text: String,
}

impl Parseable for Literal {
    /// Every lexeme can be a literal.
    open spec fn probe_spec(text: Seq<char>, next: Seq<char>) -> bool {
        true
    }

    open spec fn renderable(&self) -> bool {
        true
    }

    open spec fn html(&self) -> Seq<char> {
        self.text@
    }

    fn probe(_lexeme: &Lexeme) -> (r: bool) {
        true
    }

    fn lex(lexeme: &Lexeme) -> (r: Literal)
        ensures
            r.text@ == lexeme.text@,
    {
        Literal { text: lexeme.text() }
    }

    fn render(&self) -> (r: String) {
        self.text.clone()
    }
}

} // verus!
