use vstd::prelude::*;

use crate::syntax::content::{parser::lexeme::Lexeme, Parseable};
use crate::text::{chars_of, is_blank};
use super::{anchor_html, resolved_destination};

verus! {

/// A link. `leading` records that the syntax opened with a pipe; the
/// destination is `None` while the anchor is still being read.
#[derive(Debug, Clone)]
pub struct Anchor {
    pub text: String,
    pub destination: Option<String>,
    pub leading: bool,
}

impl Parseable for Anchor {
    /// A lone pipe, or a word directly followed by a pipe.
    open spec fn probe_spec(text: Seq<char>, next: Seq<char>) -> bool {
        text == seq!['|'] || (!is_blank(text) && next == seq!['|'])
    }

    open spec fn renderable(&self) -> bool {
        self.destination is Some
    }

    open spec fn html(&self) -> Seq<char> {
        anchor_html(self.text@, self.destination->0@)
    }

    fn probe(lexeme: &Lexeme) -> (r: bool) {
        lexeme.text_is('|') || (!lexeme.is_whitespace() && lexeme.next_is('|'))
    }

    /// An anchor needs more than one lexeme: one built from a single lexeme
    /// has no destination yet.
    fn lex(_lexeme: &Lexeme) -> (r: Anchor)
        ensures
            r.destination is None,
    {
        Anchor::empty()
    }

    fn render(&self) -> (r: String) {
        let destination = self.destination.as_ref().unwrap();
        let target = if chars_of(destination.as_str()).len() == 0 {
            self.text.clone()
        } else {
            destination.clone()
        };
        let mut out = "<a href=\"".to_owned();
        out.append(Anchor::resolve_destination(target.as_str()).as_str());
        out.append("\">");
        out.append(self.text.as_str());
        out.append("</a>");
        proof {
            reveal_strlit("<a href=\"");
            reveal_strlit("\">");
            reveal_strlit("</a>");
            assert(out@ =~= anchor_html(self.text@, self.destination->0@));
        }
        out
    }
}

impl Anchor {
    /// An anchor with a known destination, resolved as links are.
    pub fn new(text: &str, destination: &str, spaced: bool) -> (r: Anchor)
        ensures
            r.text@ == text@,
            r.destination is Some,
            r.destination->0@ == resolved_destination(destination@),
            r.leading == spaced,
    {
        Anchor {
            text: text.to_owned(),
            destination: Some(Anchor::resolve_destination(destination)),
            leading: spaced,
        }
    }

    /// Keeps a destination with `:` or `/`; prefixes any other with `/node/`.
    pub fn resolve_destination(raw: &str) -> (r: String)
        ensures
            r@ == resolved_destination(raw@),
    {
        let cs = chars_of(raw);
        let mut i: usize = 0;
        let mut qualified = false;
        while i < cs.len()
            invariant
                i <= cs@.len(),
                cs@ == raw@,
                qualified == exists|j: int| 0 <= j < i && (cs@[j] == ':' || cs@[j] == '/'),
            decreases cs@.len() - i,
        {
            if cs[i] == ':' || cs[i] == '/' {
                qualified = true;
            }
            i = i + 1;
        }
        proof {
            if qualified {
                let j = choose|j: int| 0 <= j < i && (cs@[j] == ':' || cs@[j] == '/');
                if cs@[j] == ':' {
                    assert(raw@.contains(':'));
                } else {
                    assert(raw@.contains('/'));
                }
            } else {
                assert(!raw@.contains(':'));
                assert(!raw@.contains('/'));
            }
        }
        if qualified {
            raw.to_owned()
        } else {
            let mut out = "/node/".to_owned();
            out.append(raw);
            proof {
                reveal_strlit("/node/");
            }
            assert(out@ =~= resolved_destination(raw@));
            out
        }
    }

    /// An anchor with no text, no destination, not leading.
    pub fn empty() -> (r: Anchor)
        ensures
            r.text@ == Seq::<char>::empty(),
            r.destination is None,
            !r.leading,
    {
        Anchor { text: String::new(), destination: None, leading: false }
    }
}

} // verus!
