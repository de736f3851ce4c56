use vstd::prelude::*;

use crate::syntax::content::{parser::lexeme::Lexeme, Parseable};

verus! {

/// A line break, kept as it is in the output.
#[derive(Debug)]
pub struct LineBreak {}

impl Parseable for LineBreak {
    open spec fn probe_spec(text: Seq<char>, next: Seq<char>) -> bool {
        text == seq!['\n']
    }

    open spec fn renderable(&self) -> bool {
        true
    }

    open spec fn html(&self) -> Seq<char> {
        seq!['\n']
    }

    fn probe(lexeme: &Lexeme) -> (r: bool) {
        lexeme.text_is('\n')
    }

    fn lex(_lexeme: &Lexeme) -> (r: LineBreak) {
        LineBreak {  }
    }

    fn render(&self) -> (r: String) {
        let r = "\n".to_owned();
        proof {
            reveal_strlit("\n");
        }
        r
    }
}

} // verus!
