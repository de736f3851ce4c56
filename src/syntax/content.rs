//! The markup engine: turns page text into an HTML fragment.

use vstd::prelude::*;

use crate::types::Config;
use parser::lexeme::Lexeme;
use parser::{document, ParseError};

pub mod parser;

verus! {

/// A markup construct: how to recognise it from a lexeme, how to build it
/// from one, and how it renders.
pub trait Parseable: Sized {
    /// Whether a lexeme (its text and the text after it) opens this construct.
    spec fn probe_spec(text: Seq<char>, next: Seq<char>) -> bool;

    /// Whether the value is complete enough to render.
    spec fn renderable(&self) -> bool;

    /// The HTML that the value renders to.
    spec fn html(&self) -> Seq<char>;

    fn probe(lexeme: &Lexeme) -> (r: bool)
        ensures
            r == Self::probe_spec(lexeme.text@, lexeme.next@),
    ;

    fn lex(lexeme: &Lexeme) -> (r: Self);

    fn render(&self) -> (r: String)
        requires
            self.renderable(),
        ensures
            r@ == self.html(),
    ;
}

/// Renders page text to an HTML fragment. The text must already be escaped
/// for HTML; the configuration decides whether header identifiers are ASCII
/// only. A pipe or backtick that opens no complete span renders as literal
/// text; only a header or preformatted block left open at the end fails.
pub fn parse(text: &str, config: &Config) -> (r: Result<String, ParseError>)
    ensures
        match r {
            Ok(html) => document(text@, config.ascii_dom_ids) == Ok::<Seq<char>, ParseError>(
                html@,
            ),
            Err(e) => document(text@, config.ascii_dom_ids) == Err::<Seq<char>, ParseError>(e),
        },
{
    parser::read(text, config)
}

} // verus!
